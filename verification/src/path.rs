//! File paths as text, read the way Unix reads them: components between
//! slashes, with repeated slashes and inner `.` components meaning nothing.
use crate::text;
use vstd::prelude::*;

verus! {

// ---------------------------------------------------------------------------
// Models
// ---------------------------------------------------------------------------

pub open spec fn is_absolute(path: Seq<char>) -> bool {
    path.len() > 0 && path[0] == '/'
}

/// Whether a piece between slashes is a component: an empty one never is, and
/// `.` is one only where the path begins with it.
pub open spec fn is_component(piece: Seq<char>, first: bool) -> bool {
    piece.len() > 0 && (first || piece != seq!['.'])
}

/// The components among the pieces of a path.
pub open spec fn components(list: Seq<Seq<char>>, first: bool) -> Seq<Seq<char>>
    decreases list.len(),
{
    if list.len() == 0 {
        Seq::empty()
    } else {
        let rest = components(list.drop_first(), false);
        if is_component(list.first(), first) {
            seq![list.first()] + rest
        } else {
            rest
        }
    }
}

/// The components of a path; those of an absolute one begin with `/`. Two
/// paths are the same path exactly when their components are the same.
pub open spec fn parts(path: Seq<char>) -> Seq<Seq<char>> {
    let named = components(text::pieces(path, '/'), true);
    if is_absolute(path) {
        seq![seq!['/']] + named
    } else {
        named
    }
}

/// Whether a component names something, rather than standing for the root, the
/// directory itself or its parent.
pub open spec fn is_name(part: Seq<char>) -> bool {
    part != seq!['/'] && part != seq!['.'] && part != seq!['.', '.']
}

/// The last component of a path, where that is a name.
pub open spec fn final_name(path: Seq<char>) -> Option<Seq<char>> {
    let all = parts(path);
    if all.len() > 0 && is_name(all.last()) {
        Some(all.last())
    } else {
        None
    }
}

/// Where `c` last occurs in `s`; -1 when it does not.
pub open spec fn last_position(s: Seq<char>, c: char) -> int
    decreases s.len(),
{
    if s.len() == 0 {
        -1
    } else if s.last() == c {
        s.len() - 1
    } else {
        last_position(s.drop_last(), c)
    }
}

/// What follows the last dot of a path's final name; nothing for a name whose
/// only dot is its first character.
pub open spec fn extension(path: Seq<char>) -> Option<Seq<char>> {
    match final_name(path) {
        Some(name) => if last_position(name, '.') > 0 {
            Some(name.skip(last_position(name, '.') + 1))
        } else {
            None
        },
        None => None,
    }
}

/// What to call a path: its final name, or the whole of it when it has none.
pub open spec fn title(path: Seq<char>) -> Seq<char> {
    match final_name(path) {
        Some(name) => name,
        None => path,
    }
}

/// The path of `name` inside the directory `dir`; an absolute `name` stands
/// for itself.
pub open spec fn joined_path(dir: Seq<char>, name: Seq<char>) -> Seq<char> {
    if is_absolute(name) {
        name
    } else if dir.len() == 0 || dir.last() == '/' {
        dir + name
    } else {
        dir.push('/') + name
    }
}

/// Whether the components of `path` begin with those of `root`.
pub open spec fn is_under(path: Seq<char>, root: Seq<char>) -> bool {
    let p = parts(path);
    let r = parts(root);
    r.len() <= p.len() && p.take(r.len() as int) == r
}

/// What a directory can hold under its own name: a single component.
pub open spec fn is_entry_name(name: Seq<char>) -> bool {
    name.len() > 0 && is_name(name) && !name.contains('/')
}

// ---------------------------------------------------------------------------
// Joining
// ---------------------------------------------------------------------------

proof fn lemma_pieces_nonempty(s: Seq<char>, c: char)
    ensures
        text::pieces(s, c).len() >= 1,
    decreases s.len(),
{
    text::lemma_position(s, c);
    if text::position(s, c) < s.len() {
        lemma_pieces_nonempty(s.skip(text::position(s, c) as int + 1), c);
    }
}

/// Cutting at a separator cuts the pieces in two.
proof fn lemma_pieces_concat(a: Seq<char>, b: Seq<char>, c: char)
    ensures
        text::pieces(a.push(c) + b, c) == text::pieces(a, c) + text::pieces(b, c),
    decreases a.len(),
{
    let whole = a.push(c) + b;
    let at = text::position(a, c) as int;
    text::lemma_position(a, c);
    text::lemma_position_is(whole, c, at);
    if at >= a.len() {
        assert(whole.take(at) =~= a);
        assert(whole.skip(at + 1) =~= b);
    } else {
        let rest = a.skip(at + 1);
        assert(whole.take(at) =~= a.take(at));
        assert(whole.skip(at + 1) =~= rest.push(c) + b);
        lemma_pieces_concat(rest, b, c);
        assert(seq![a.take(at)] + (text::pieces(rest, c) + text::pieces(b, c)) =~= (seq![a.take(at)] + text::pieces(
            rest,
            c,
        )) + text::pieces(b, c));
    }
}

proof fn lemma_components_concat(a: Seq<Seq<char>>, b: Seq<Seq<char>>, first: bool)
    ensures
        components(a + b, first) == components(a, first) + components(b, first && a.len() == 0),
    decreases a.len(),
{
    if a.len() == 0 {
        assert(a + b =~= b);
        assert(components(a, first) + components(b, first) =~= components(b, first));
    } else {
        assert((a + b).drop_first() =~= a.drop_first() + b);
        lemma_components_concat(a.drop_first(), b, false);
        let rest = components(a.drop_first(), false);
        assert((seq![a.first()] + rest) + components(b, false) =~= seq![a.first()] + (rest
            + components(b, false)));
    }
}

proof fn lemma_pieces_of_name(name: Seq<char>)
    requires
        !name.contains('/'),
    ensures
        text::pieces(name, '/') == seq![name],
{
    assert forall|i: int| 0 <= i < name.len() implies name[i] != '/' by {
        if name[i] == '/' {
            assert(name.contains('/'));
        }
    }
    text::lemma_position_is(name, '/', name.len() as int);
}

/// Joining an entry's name to a directory adds it as one more component.
pub proof fn joining_adds_one_component(dir: Seq<char>, name: Seq<char>)
    requires
        is_entry_name(name),
    ensures
        parts(joined_path(dir, name)) == parts(dir).push(name),
{
    assert(!is_absolute(name)) by {
        if is_absolute(name) {
            assert(name.contains('/'));
        }
    }
    lemma_pieces_of_name(name);
    let one = seq![name];
    assert(one.drop_first() =~= Seq::<Seq<char>>::empty());
    reveal_with_fuel(components, 2);
    assert(one.first() == name);
    assert(components(one, true) =~= one);
    assert(components(one, false) =~= one);
    let path = joined_path(dir, name);
    if dir.len() == 0 {
        assert(path =~= name);
        assert(text::pieces(dir, '/') == seq![dir]);
        assert(seq![dir].drop_first() =~= Seq::<Seq<char>>::empty());
        assert(parts(dir) =~= Seq::<Seq<char>>::empty());
        assert(parts(path) =~= parts(dir).push(name));
    } else if dir.last() == '/' {
        let stem = dir.drop_last();
        let empty = Seq::<char>::empty();
        assert(dir =~= stem.push('/') + empty);
        assert(path =~= stem.push('/') + name);
        lemma_pieces_concat(stem, empty, '/');
        lemma_pieces_concat(stem, name, '/');
        lemma_pieces_of_name(empty);
        lemma_pieces_nonempty(stem, '/');
        lemma_components_concat(text::pieces(stem, '/'), seq![empty], true);
        lemma_components_concat(text::pieces(stem, '/'), one, true);
        assert(seq![empty].drop_first() =~= Seq::<Seq<char>>::empty());
        assert(components(seq![empty], false) =~= Seq::<Seq<char>>::empty());
        assert(components(text::pieces(dir, '/'), true) =~= components(text::pieces(stem, '/'), true));
        assert(is_absolute(path) == is_absolute(dir));
        assert(parts(path) =~= parts(dir).push(name));
    } else {
        lemma_pieces_concat(dir, name, '/');
        lemma_pieces_nonempty(dir, '/');
        lemma_components_concat(text::pieces(dir, '/'), one, true);
        assert(is_absolute(path) == is_absolute(dir));
        assert(parts(path) =~= parts(dir).push(name));
    }
}

proof fn lemma_component_count(s: Seq<char>, first: bool)
    ensures
        2 * components(text::pieces(s, '/'), first).len() <= s.len() + 1,
        is_absolute(s) ==> 2 * components(text::pieces(s, '/'), first).len() <= s.len(),
    decreases s.len(),
{
    let at = text::position(s, '/') as int;
    text::lemma_position(s, '/');
    let list = text::pieces(s, '/');
    if at >= s.len() {
        assert(list.drop_first() =~= Seq::<Seq<char>>::empty());
        reveal_with_fuel(components, 2);
    } else {
        let rest = s.skip(at + 1);
        lemma_component_count(rest, false);
        assert(list.drop_first() =~= text::pieces(rest, '/'));
        assert(list.first() =~= s.take(at));
    }
}

/// A path is at least twice as long as it is deep.
pub proof fn deep_paths_are_long(path: Seq<char>)
    ensures
        !is_absolute(path) ==> 2 * parts(path).len() <= path.len() + 1,
        is_absolute(path) ==> 2 * parts(path).len() <= path.len() + 2,
{
    lemma_component_count(path, true);
}

// ---------------------------------------------------------------------------
// Taking paths apart
// ---------------------------------------------------------------------------

/// The components of a path.
pub fn parts_of(path: &str) -> (out: Vec<String>)
    ensures
        text::texts(out@) == parts(path@),
{
    let list = text::split(path, '/');
    let ghost all = text::pieces(path@, '/');
    let mut out: Vec<String> = Vec::new();
    let absolute = starts_absolute(path);
    if absolute {
        let mut slash = String::new();
        slash.push('/');
        assert(slash@ =~= seq!['/']);
        out.push(slash);
    }
    let ghost root = text::texts(out@);
    proof {
        reveal_strlit(".");
        assert("."@ =~= seq!['.']);
        assert(absolute ==> root =~= seq![seq!['/']]);
        assert(!absolute ==> root =~= Seq::<Seq<char>>::empty());
        assert(all.skip(0) =~= all);
        assert(root + components(all, true) =~= parts(path@));
    }
    let mut i: usize = 0;
    while i < list.len()
        invariant
            i <= list@.len(),
            all == text::texts(list@),
            "."@ == seq!['.'],
            text::texts(out@) + components(all.skip(i as int), i == 0) == parts(path@),
        decreases list@.len() - i,
    {
        let ghost tail = all.skip(i as int);
        let ghost before = text::texts(out@);
        proof {
            assert(tail.first() == list@[i as int]@);
            assert(tail.drop_first() =~= all.skip(i + 1));
        }
        let piece = list[i].clone();
        if !piece.as_str().is_empty() && (i == 0 || !text::same_text(piece.as_str(), ".")) {
            out.push(piece);
            proof {
                assert(text::texts(out@) =~= before.push(tail.first()));
                assert(before + (seq![tail.first()] + components(all.skip(i + 1), false)) =~= before.push(
                    tail.first(),
                ) + components(all.skip(i + 1), false));
            }
        }
        i += 1;
    }
    assert(all.skip(i as int) =~= Seq::<Seq<char>>::empty());
    assert(text::texts(out@) + Seq::<Seq<char>>::empty() =~= text::texts(out@));
    out
}

fn starts_absolute(path: &str) -> (yes: bool)
    ensures
        yes == is_absolute(path@),
{
    let chars = text::chars_of(path);
    chars.len() > 0 && chars[0] == '/'
}

/// Whether two paths are the same path.
pub fn same_path(a: &str, b: &str) -> (same: bool)
    ensures
        same == (parts(a@) == parts(b@)),
{
    let x = parts_of(a);
    let y = parts_of(b);
    let ghost p = parts(a@);
    let ghost q = parts(b@);
    if x.len() != y.len() {
        assert(text::texts(x@).len() != text::texts(y@).len());
        return false;
    }
    let mut i: usize = 0;
    while i < x.len()
        invariant
            i <= x@.len(),
            x@.len() == y@.len(),
            p == text::texts(x@),
            q == text::texts(y@),
            p == parts(a@),
            q == parts(b@),
            forall|k: int| 0 <= k < i ==> p[k] == q[k],
        decreases x@.len() - i,
    {
        if !text::same_text(x[i].as_str(), y[i].as_str()) {
            assert(p[i as int] != q[i as int]);
            return false;
        }
        i += 1;
    }
    assert(p =~= q);
    true
}

/// Whether `path` is `root` or lies somewhere below it.
pub fn starts_with(path: &str, root: &str) -> (yes: bool)
    ensures
        yes == is_under(path@, root@),
{
    let x = parts_of(path);
    let y = parts_of(root);
    let ghost p = parts(path@);
    let ghost r = parts(root@);
    if y.len() > x.len() {
        assert(text::texts(x@).len() < text::texts(y@).len());
        return false;
    }
    let mut i: usize = 0;
    while i < y.len()
        invariant
            i <= y@.len() <= x@.len(),
            p == text::texts(x@),
            r == text::texts(y@),
            p == parts(path@),
            r == parts(root@),
            forall|k: int| 0 <= k < i ==> p[k] == r[k],
        decreases y@.len() - i,
    {
        if !text::same_text(x[i].as_str(), y[i].as_str()) {
            assert(p.take(r.len() as int)[i as int] != r[i as int]);
            return false;
        }
        i += 1;
    }
    assert(p.take(r.len() as int) =~= r);
    true
}

/// The last component of a path, where that is a name.
pub fn file_name(path: &str) -> (name: Option<String>)
    ensures
        name is Some == final_name(path@) is Some,
        name is Some ==> name->0@ == final_name(path@)->0,
{
    let all = parts_of(path);
    proof {
        reveal_strlit("/");
        reveal_strlit(".");
        reveal_strlit("..");
        assert("/"@ =~= seq!['/']);
        assert("."@ =~= seq!['.']);
        assert(".."@ =~= seq!['.', '.']);
    }
    if all.len() == 0 {
        assert(parts(path@).len() == 0);
        return None;
    }
    let last = all[all.len() - 1].clone();
    assert(parts(path@).last() == last@);
    if text::same_text(last.as_str(), "/") || text::same_text(last.as_str(), ".")
        || text::same_text(last.as_str(), "..") {
        None
    } else {
        Some(last)
    }
}

/// The place after which `c` does not occur is its last.
pub proof fn lemma_last_position(s: Seq<char>, c: char, at: int)
    requires
        -1 <= at < s.len(),
        at >= 0 ==> s[at] == c,
        forall|i: int| at < i < s.len() ==> s[i] != c,
    ensures
        last_position(s, c) == at,
    decreases s.len(),
{
    if s.len() > 0 && at < s.len() - 1 {
        assert(s.last() != c);
        lemma_last_position(s.drop_last(), c, at);
    }
}

/// What follows the last dot of a path's final name.
pub fn extension_of(path: &str) -> (ext: Option<String>)
    ensures
        ext is Some == extension(path@) is Some,
        ext is Some ==> ext->0@ == extension(path@)->0,
{
    match file_name(path) {
        None => None,
        Some(name) => {
            let chars = text::chars_of(name.as_str());
            let mut i: usize = chars.len();
            while i > 0 && chars[i - 1] != '.'
                invariant
                    i <= chars@.len(),
                    forall|k: int| i <= k < chars@.len() ==> chars@[k] != '.',
                decreases i,
            {
                i -= 1;
            }
            proof {
                lemma_last_position(chars@, '.', i - 1);
            }
            if i > 1 {
                assert(chars@.skip(i as int) =~= chars@.subrange(i as int, chars@.len() as int));
                Some(text::slice_text(&chars, i, chars.len()))
            } else {
                None
            }
        },
    }
}

/// What to call a path.
pub fn title_of(path: &str) -> (name: String)
    ensures
        name@ == title(path@),
{
    match file_name(path) {
        Some(name) => name,
        None => path.to_owned(),
    }
}

/// The path of `name` inside the directory `dir`.
pub fn join(dir: &str, name: &str) -> (path: String)
    ensures
        path@ == joined_path(dir@, name@),
{
    if starts_absolute(name) {
        return name.to_owned();
    }
    let chars = text::chars_of(dir);
    let mut out = dir.to_owned();
    if chars.len() > 0 && chars[chars.len() - 1] != '/' {
        out.push('/');
    }
    out.append(name);
    out
}

/// A path of an entry is titled with the entry's name, wherever it is; a path with
/// no name at its end is its own title.
pub proof fn an_entry_is_titled_with_its_name(dir: Seq<char>, name: Seq<char>)
    requires
        is_entry_name(name),
    ensures
        final_name(joined_path(dir, name)) == Some(name),
        title(joined_path(dir, name)) == name,
        parts(dir).len() == 0 ==> title(dir) == dir,
        parts(dir).len() > 0 && (parts(dir).last() == seq!['/'] || parts(dir).last() == seq!['.']
            || parts(dir).last() == seq!['.', '.']) ==> title(dir) == dir,
{
    joining_adds_one_component(dir, name);
}

/// A path lies inside another exactly where it goes on from the other's components,
/// or has the same; so everything is inside itself, and what is inside what is
/// inside is inside.
pub proof fn what_is_inside_goes_on_from_it(
    path: Seq<char>,
    root: Seq<char>,
    top: Seq<char>,
    name: Seq<char>,
)
    ensures
        is_under(path, root) <==> parts(root).is_prefix_of(parts(path)),
        is_under(path, path),
        is_under(path, root) && is_under(root, top) ==> is_under(path, top),
        is_entry_name(name) ==> is_under(joined_path(root, name), root) && !is_under(
            root,
            joined_path(root, name),
        ),
{
    let p = parts(path);
    let r = parts(root);
    let t = parts(top);
    if r.len() <= p.len() {
        assert(p.take(r.len() as int) =~= p.subrange(0, r.len() as int));
    }
    assert(p.take(p.len() as int) =~= p);
    if is_under(path, root) && is_under(root, top) {
        assert(p.take(t.len() as int) =~= r.take(t.len() as int));
    }
    if is_entry_name(name) {
        joining_adds_one_component(root, name);
        assert(r.push(name).take(r.len() as int) =~= r);
    }
}

/// A slash at the end of a path changes nothing, and nor does a lone dot behind it.
pub proof fn extra_slashes_and_dots_change_nothing(path: Seq<char>)
    requires
        path.len() > 0,
    ensures
        parts(path.push('/')) == parts(path),
        parts(path.push('/').push('.')) == parts(path),
{
    lemma_pieces_concat(path, Seq::empty(), '/');
    lemma_pieces_concat(path, seq!['.'], '/');
    lemma_pieces_of_plain(Seq::empty());
    lemma_pieces_of_plain(seq!['.']);
    assert(path.push('/') =~= path.push('/') + Seq::<char>::empty());
    assert(path.push('/').push('.') =~= path.push('/') + seq!['.']);
    let all = text::pieces(path, '/');
    assert(all + seq![Seq::<char>::empty()] =~= all.push(Seq::empty()));
    assert(all + seq![seq!['.']] =~= all.push(seq!['.']));
    lemma_pieces_nonempty(path, '/');
    lemma_components_of_last(all, Seq::empty(), true);
    lemma_components_of_last(all, seq!['.'], true);
}

proof fn lemma_pieces_of_plain(s: Seq<char>)
    requires
        !s.contains('/'),
    ensures
        text::pieces(s, '/') == seq![s],
{
    text::lemma_position(s, '/');
    let at = text::position(s, '/') as int;
    if at < s.len() {
        assert(s.contains(s[at]));
    }
}

proof fn lemma_components_of_last(list: Seq<Seq<char>>, last: Seq<char>, first: bool)
    requires
        list.len() > 0,
        last == Seq::<char>::empty() || last == seq!['.'],
    ensures
        components(list.push(last), first) == components(list, first),
    decreases list.len(),
{
    let all = list.push(last);
    assert(all.first() == list.first());
    assert(all.drop_first() =~= list.drop_first().push(last));
    if list.len() == 1 {
        let rest = list.drop_first();
        assert(rest =~= Seq::<Seq<char>>::empty());
        reveal_with_fuel(components, 3);
        assert(all.drop_first().drop_first() =~= Seq::<Seq<char>>::empty());
        assert(components(all.drop_first(), false) =~= Seq::<Seq<char>>::empty());
    } else {
        lemma_components_of_last(list.drop_first(), last, false);
    }
}

/// A path that begins with a slash begins at the root, and no other does; the root is
/// the root and nothing else, and an empty path is nothing at all.
pub proof fn an_absolute_path_begins_at_the_root(path: Seq<char>)
    ensures
        path.len() > 0 && path[0] == '/' ==> parts(path).len() > 0 && parts(path)[0] == seq!['/'],
        path.len() > 0 && path[0] != '/' ==> parts(path).len() > 0 && parts(path)[0] != seq!['/'],
        parts(seq!['/']) == seq![seq!['/']],
        parts(Seq::empty()) == Seq::<Seq<char>>::empty(),
{
    let root = seq!['/'];
    lemma_pieces_of_plain(Seq::empty());
    lemma_pieces_concat(Seq::empty(), Seq::empty(), '/');
    assert(Seq::<char>::empty().push('/') + Seq::<char>::empty() =~= root);
    let none = seq![Seq::<char>::empty()];
    assert(none.drop_first() =~= Seq::<Seq<char>>::empty());
    let two = none + none;
    assert(two.drop_first() =~= none);
    reveal_with_fuel(components, 3);
    assert(parts(root) =~= seq![root]);
    assert(parts(Seq::empty()) =~= Seq::<Seq<char>>::empty());
    if path.len() > 0 && path[0] != '/' {
        let at = text::position(path, '/') as int;
        text::lemma_position(path, '/');
        let head = text::pieces(path, '/').first();
        assert(head == if at >= path.len() {
            path
        } else {
            path.take(at)
        });
        assert(head[0] == path[0]);
    }
}

} // verus!
