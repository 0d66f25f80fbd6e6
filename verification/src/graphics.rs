//! herdr's pane graphics API: hand the server a PNG and a cell rectangle and it
//! deals with the kitty protocol, the outer terminal and the SSH bridge.
//!
//! Requests are one JSON object per line on the session socket; every request
//! needs an `id` or the server rejects it as malformed. This file writes the
//! requests and reads the replies; whoever holds the socket carries them.
use crate::armor;
use crate::json;
use crate::json::JsonView;
use crate::rect::Rect;
use crate::text;
use vstd::prelude::*;
use vstd::string::StringExecFns;

verus! {

/// A session of the graphics API.
pub struct Herdr {
    pub socket: String,
    pub pane: String,
    /// How many requests have been written.
    pub seq: u64,
    /// Pixel size of one terminal cell, so a thumbnail can be built to fit the
    /// preview rectangle exactly instead of being rescaled by the compositor.
    pub cell: (u32, u32),
}

/// The layer that pictures go on.
pub open spec fn layer() -> Seq<char> {
    "grove-preview"@
}

/// The id of the request with a given number.
pub open spec fn request_id(seq: nat) -> Seq<char> {
    "grove-"@ + text::decimal(seq)
}

/// A request: its id, what is asked for, and the particulars.
pub open spec fn request(seq: nat, method: Seq<char>, params: JsonView) -> JsonView {
    JsonView::Object(
        map![
            "id"@ => JsonView::Text(request_id(seq)),
            "method"@ => JsonView::Text(method),
            "params"@ => params,
        ],
    )
}

/// A request as it goes over the socket: one line.
pub open spec fn request_line(seq: nat, method: Seq<char>, params: JsonView) -> Seq<char> {
    json::written(request(seq, method, params)) + "\n"@
}

/// The particulars of asking how large a cell is.
pub open spec fn info_params(pane: Seq<char>) -> JsonView {
    JsonView::Object(map!["pane_id"@ => JsonView::Text(pane)])
}

/// The particulars of placing a picture.
pub open spec fn set_params(
    pane: Seq<char>,
    png: Seq<u8>,
    size: (u32, u32),
    rect: Rect,
) -> JsonView {
    JsonView::Object(
        map![
            "pane_id"@ => JsonView::Text(pane),
            "format"@ => JsonView::Text("png"@),
            "image_width"@ => JsonView::Count(size.0 as u64),
            "image_height"@ => JsonView::Count(size.1 as u64),
            "data_base64"@ => JsonView::Text(armor::armored(png)),
            "layer_id"@ => JsonView::Text(layer()),
            "z_index"@ => JsonView::Count(1),
            "placement"@ => JsonView::Object(
                map![
                    "grid_cols"@ => JsonView::Count(rect.width as u64),
                    "grid_rows"@ => JsonView::Count(rect.height as u64),
                    "viewport_col"@ => JsonView::Count(rect.x as u64),
                    "viewport_row"@ => JsonView::Count(rect.y as u64),
                ],
            ),
        ],
    )
}

/// The particulars of taking the picture off.
pub open spec fn clear_params(pane: Seq<char>) -> JsonView {
    JsonView::Object(
        map!["pane_id"@ => JsonView::Text(pane), "layer_id"@ => JsonView::Text(layer())],
    )
}

/// What a reply answers, if it is a reply that answers anything.
pub open spec fn result_in(reply: Seq<char>) -> Option<JsonView> {
    match json::spelled(reply) {
        Some(value) => json::held(value, "result"@),
        None => None,
    }
}

/// A whole number under a key of an answer.
pub open spec fn count_in(answer: JsonView, key: Seq<char>) -> Option<u64> {
    match json::held(answer, key) {
        Some(JsonView::Count(n)) => Some(n),
        _ => None,
    }
}

/// The low 32 bits of a number.
pub open spec fn low_bits(n: u64) -> u32 {
    (n % 0x1_0000_0000) as u32
}

/// How large a cell is, according to an answer: both sides, and neither of them
/// nothing.
pub open spec fn cell_in(answer: Option<JsonView>) -> Option<(u32, u32)> {
    match answer {
        Some(info) => match (count_in(info, "cell_width_px"@), count_in(info, "cell_height_px"@)) {
            (Some(w), Some(h)) => if low_bits(w) > 0 && low_bits(h) > 0 {
                Some((low_bits(w), low_bits(h)))
            } else {
                None
            },
            _ => None,
        },
        None => None,
    }
}

fn truncate(n: u64) -> (out: u32)
    ensures
        out == low_bits(n),
{
    let out = n as u32;
    assert(out == (n % 0x1_0000_0000) as u32) by (bit_vector)
        requires
            out == n as u32,
    ;
    out
}

/// The answer in a reply, if there is one.
fn result_of(reply: &str) -> (answer: Option<serde_json::Value>)
    ensures
        match answer {
            Some(answer) => result_in(reply@) == Some(json::json_of(answer)),
            None => result_in(reply@) is None,
        },
{
    match json::read(reply) {
        Some(value) => json::get(&value, "result"),
        None => None,
    }
}

/// A whole number under a key of an answer.
fn count_of(answer: &serde_json::Value, key: &str) -> (n: Option<u64>)
    ensures
        n == count_in(json::json_of(*answer), key@),
{
    match json::get(answer, key) {
        Some(field) => json::as_count(&field),
        None => None,
    }
}

impl Herdr {
    /// A session, where the environment names a socket and a pane. It has not
    /// been asked yet how large a cell is. `None` outside a herdr pane: the
    /// caller then falls back to a text card.
    pub fn from_env(socket: Option<String>, pane: Option<String>) -> (herdr: Option<Herdr>)
        ensures
            herdr is Some == (socket is Some && pane is Some),
            herdr matches Some(h) ==> h.socket@ == socket->0@ && h.pane@ == pane->0@ && h.seq == 0
                && h.cell == (10u32, 20u32),
    {
        match (socket, pane) {
            (Some(socket), Some(pane)) => Some(Herdr { socket, pane, seq: 0, cell: (10, 20) }),
            _ => None,
        }
    }

    /// The line that asks for `method`, with the next number for its id.
    pub fn call(&mut self, method: &str, params: serde_json::Value) -> (line: String)
        requires
            old(self).seq < u64::MAX,
        ensures
            line@ == request_line((old(self).seq + 1) as nat, method@, json::json_of(params)),
            *final(self) == (Herdr { seq: (old(self).seq + 1) as u64, ..*old(self) }),
            line@.len() > 0 && line@.last() == '\n' && !line@.drop_last().contains('\n'),
    {
        self.seq = self.seq + 1;
        let id = "grove-".to_owned().concat(text::decimal_text(self.seq).as_str());
        let mut request = json::object();
        json::put(&mut request, "id", json::string(id.as_str()));
        json::put(&mut request, "method", json::string(method));
        json::put(&mut request, "params", params);
        let written = json::write(&request);
        proof {
            reveal_strlit("\n");
            assert((written@ + "\n"@).drop_last() =~= written@);
        }
        written.concat("\n")
    }

    /// The line that asks how large a cell is.
    pub fn info(&mut self) -> (line: String)
        requires
            old(self).seq < u64::MAX,
        ensures
            line@ == request_line(
                (old(self).seq + 1) as nat,
                "pane.graphics.info"@,
                info_params(old(self).pane@),
            ),
            *final(self) == (Herdr { seq: (old(self).seq + 1) as u64, ..*old(self) }),
    {
        let mut params = json::object();
        json::put(&mut params, "pane_id", json::string(self.pane.as_str()));
        self.call("pane.graphics.info", params)
    }

    /// How large a cell is, from the reply to that question; `None` when there
    /// was no reply, or none that says.
    pub fn cell_size(reply: &Option<String>) -> (cell: Option<(u32, u32)>)
        ensures
            cell == (match text::option_view(*reply) {
                Some(reply) => cell_in(result_in(reply)),
                None => None,
            }),
    {
        let reply = match reply {
            Some(reply) => reply,
            None => {
                return None;
            },
        };
        let info = match result_of(reply.as_str()) {
            Some(info) => info,
            None => {
                return None;
            },
        };
        match (count_of(&info, "cell_width_px"), count_of(&info, "cell_height_px")) {
            (Some(w), Some(h)) => {
                let cell = (truncate(w), truncate(h));
                if cell.0 > 0 && cell.1 > 0 {
                    Some(cell)
                } else {
                    None
                }
            },
            _ => None,
        }
    }

    /// The session once it is known how large a cell is; none at all when that
    /// cannot be found out.
    pub fn measured(self, reply: &Option<String>) -> (herdr: Option<Herdr>)
        ensures
            match text::option_view(*reply) {
                Some(reply) => match cell_in(result_in(reply)) {
                    Some(cell) => herdr == Some(Herdr { cell, ..self }),
                    None => herdr is None,
                },
                None => herdr is None,
            },
    {
        match Herdr::cell_size(reply) {
            Some(cell) => Some(
                Herdr { socket: self.socket, pane: self.pane, seq: self.seq, cell },
            ),
            None => None,
        }
    }

    /// The line that places `png` over `rect`, replacing whatever the layer held
    /// before.
    pub fn set(&mut self, png: &Vec<u8>, size: (u32, u32), rect: Rect) -> (line: String)
        requires
            old(self).seq < u64::MAX,
            armor::armored_len(png@.len()) <= isize::MAX,
        ensures
            line@ == request_line(
                (old(self).seq + 1) as nat,
                "pane.graphics.set"@,
                set_params(old(self).pane@, png@, size, rect),
            ),
            *final(self) == (Herdr { seq: (old(self).seq + 1) as u64, ..*old(self) }),
    {
        let data = armor::to_base64(png.as_slice());
        let mut placement = json::object();
        json::put(&mut placement, "grid_cols", json::count(rect.width as u64));
        json::put(&mut placement, "grid_rows", json::count(rect.height as u64));
        json::put(&mut placement, "viewport_col", json::count(rect.x as u64));
        json::put(&mut placement, "viewport_row", json::count(rect.y as u64));
        let mut params = json::object();
        json::put(&mut params, "pane_id", json::string(self.pane.as_str()));
        json::put(&mut params, "format", json::string("png"));
        json::put(&mut params, "image_width", json::count(size.0 as u64));
        json::put(&mut params, "image_height", json::count(size.1 as u64));
        json::put(&mut params, "data_base64", json::string(data.as_str()));
        json::put(&mut params, "layer_id", json::string("grove-preview"));
        json::put(&mut params, "z_index", json::count(1));
        json::put(&mut params, "placement", placement);
        self.call("pane.graphics.set", params)
    }

    /// The line that takes the picture off.
    pub fn clear(&mut self) -> (line: String)
        requires
            old(self).seq < u64::MAX,
        ensures
            line@ == request_line(
                (old(self).seq + 1) as nat,
                "pane.graphics.clear"@,
                clear_params(old(self).pane@),
            ),
            *final(self) == (Herdr { seq: (old(self).seq + 1) as u64, ..*old(self) }),
    {
        let mut params = json::object();
        json::put(&mut params, "pane_id", json::string(self.pane.as_str()));
        json::put(&mut params, "layer_id", json::string("grove-preview"));
        self.call("pane.graphics.clear", params)
    }
}

/// No two requests of a session carry the same id.
pub proof fn request_ids_are_distinct(a: nat, b: nat)
    requires
        a != b,
    ensures
        request_id(a) != request_id(b),
{
    text::lemma_decimal(a);
    text::lemma_decimal(b);
    if request_id(a) == request_id(b) {
        let skip = "grove-"@.len() as int;
        assert(request_id(a).skip(skip) =~= text::decimal(a));
        assert(request_id(b).skip(skip) =~= text::decimal(b));
    }
}

/// Every request has an id, and it is text.
pub proof fn every_request_has_an_id(seq: nat, method: Seq<char>, params: JsonView)
    ensures
        json::held(request(seq, method, params), "id"@) == Some(JsonView::Text(request_id(seq))),
{
    reveal_strlit("id");
    reveal_strlit("method");
    reveal_strlit("params");
    assert("id"@.len() != "method"@.len());
    assert("id"@.len() != "params"@.len());
}

/// Every request says what is asked for and gives the particulars, on one line of its
/// own.
pub proof fn a_request_says_what_is_asked(seq: nat, method: Seq<char>, params: JsonView)
    ensures
        json::held(request(seq, method, params), "method"@) == Some(JsonView::Text(method)),
        json::held(request(seq, method, params), "params"@) == Some(params),
        request_line(seq, method, params) == json::written(request(seq, method, params)) + seq![
            '\n',
        ],
{
    reveal_strlit("id");
    reveal_strlit("method");
    reveal_strlit("params");
    reveal_strlit("\n");
    assert("method"@[0] == 'm' && "params"@[0] == 'p');
    assert("\n"@ =~= seq!['\n']);
}

/// Placing a picture gives the pane, the picture as it is and its size, the layer, and
/// the rectangle: how wide and high, and where it begins.
pub proof fn a_placement_gives_the_picture_and_the_rectangle(
    pane: Seq<char>,
    png: Seq<u8>,
    size: (u32, u32),
    rect: Rect,
)
    ensures
        ({
            let params = set_params(pane, png, size, rect);
            &&& json::held(params, "pane_id"@) == Some(JsonView::Text(pane))
            &&& json::held(params, "format"@) == Some(JsonView::Text("png"@))
            &&& json::held(params, "image_width"@) == Some(JsonView::Count(size.0 as u64))
            &&& json::held(params, "image_height"@) == Some(JsonView::Count(size.1 as u64))
            &&& json::held(params, "data_base64"@) == Some(JsonView::Text(armor::armored(png)))
            &&& json::held(params, "layer_id"@) == Some(JsonView::Text("grove-preview"@))
            &&& json::held(params, "z_index"@) == Some(JsonView::Count(1))
            &&& match json::held(params, "placement"@) {
                Some(at) => {
                    &&& json::held(at, "grid_cols"@) == Some(JsonView::Count(rect.width as u64))
                    &&& json::held(at, "grid_rows"@) == Some(JsonView::Count(rect.height as u64))
                    &&& json::held(at, "viewport_col"@) == Some(JsonView::Count(rect.x as u64))
                    &&& json::held(at, "viewport_row"@) == Some(JsonView::Count(rect.y as u64))
                },
                None => false,
            }
        }),
{
    reveal_strlit("pane_id");
    reveal_strlit("format");
    reveal_strlit("image_width");
    reveal_strlit("image_height");
    reveal_strlit("data_base64");
    reveal_strlit("layer_id");
    reveal_strlit("z_index");
    reveal_strlit("placement");
    reveal_strlit("grid_cols");
    reveal_strlit("grid_rows");
    reveal_strlit("viewport_col");
    reveal_strlit("viewport_row");
    assert("pane_id"@[0] == 'p' && "z_index"@[0] == 'z');
    assert("image_width"@[0] == 'i' && "data_base64"@[0] == 'd');
    assert("grid_cols"@[5] == 'c' && "grid_rows"@[5] == 'r');
    assert("viewport_col"@[9] == 'c' && "viewport_row"@[9] == 'r');
    assert("pane_id"@.len() == 7 && "format"@.len() == 6 && "image_width"@.len() == 11);
    assert("image_height"@.len() == 12 && "data_base64"@.len() == 11 && "layer_id"@.len() == 8);
    assert("z_index"@.len() == 7 && "placement"@.len() == 9);
    assert("grid_cols"@.len() == 9 && "viewport_col"@.len() == 12);
}

/// Taking a picture off names the pane and the same layer that pictures go on, and
/// asking for the size of a cell names the pane.
pub proof fn a_picture_comes_off_the_layer_it_went_on(
    pane: Seq<char>,
    png: Seq<u8>,
    size: (u32, u32),
    rect: Rect,
)
    ensures
        json::held(clear_params(pane), "layer_id"@) == json::held(
            set_params(pane, png, size, rect),
            "layer_id"@,
        ),
        json::held(clear_params(pane), "layer_id"@) == Some(JsonView::Text("grove-preview"@)),
        json::held(clear_params(pane), "pane_id"@) == Some(JsonView::Text(pane)),
        json::held(info_params(pane), "pane_id"@) == Some(JsonView::Text(pane)),
{
    reveal_strlit("pane_id");
    reveal_strlit("layer_id");
    a_placement_gives_the_picture_and_the_rectangle(pane, png, size, rect);
}

/// A cell has the size that the answer gives for both sides, in 32 bits each, and has
/// none where either is missing or comes to nothing.
pub proof fn a_cell_has_the_size_that_is_answered(info: JsonView)
    ensures
        match (json::held(info, "cell_width_px"@), json::held(info, "cell_height_px"@)) {
            (Some(JsonView::Count(w)), Some(JsonView::Count(h))) => {
                let sides = (w % 0x1_0000_0000, h % 0x1_0000_0000);
                match cell_in(Some(info)) {
                    Some(cell) => cell.0 == sides.0 > 0 && cell.1 == sides.1 > 0,
                    None => sides.0 == 0 || sides.1 == 0,
                }
            },
            _ => cell_in(Some(info)) is None,
        },
        cell_in(None) is None,
{
}

/// A reply answers with what it has under `result`; what is no JSON, or has nothing
/// there, answers nothing.
pub proof fn a_reply_answers_with_its_result(
    reply: Seq<char>,
    fields: Map<Seq<char>, JsonView>,
    answer: JsonView,
)
    ensures
        json::spelled(reply) == Some(JsonView::Object(fields.insert("result"@, answer)))
            ==> result_in(reply) == Some(answer),
        json::spelled(reply) == Some(JsonView::Object(fields)) && !fields.contains_key("result"@)
            ==> result_in(reply) is None,
        json::spelled(reply) is None ==> result_in(reply) is None,
{
}

} // verus!
