//! Requests to the graphics API, and the replies to them.
use base64::Engine as _;
use grove::graphics::Herdr;
use grove::rect::Rect;

fn session() -> Herdr {
    Herdr::from_env(Some("/run/herdr.sock".into()), Some("pane-7".into())).unwrap()
}

fn parse(line: &str) -> serde_json::Value {
    assert!(line.ends_with('\n'));
    assert_eq!(line.matches('\n').count(), 1, "one request is one line");
    serde_json::from_str(line).unwrap()
}

#[test]
fn there_is_no_session_outside_a_pane() {
    assert!(Herdr::from_env(None, Some("pane-7".into())).is_none());
    assert!(Herdr::from_env(Some("/run/herdr.sock".into()), None).is_none());
    let herdr = session();
    assert_eq!((herdr.socket.as_str(), herdr.pane.as_str()), ("/run/herdr.sock", "pane-7"));
    assert_eq!((herdr.seq, herdr.cell), (0, (10, 20)));
}

#[test]
fn every_request_has_an_id_of_its_own() {
    let mut herdr = session();
    let lines = [herdr.info(), herdr.clear(), herdr.clear()];
    let ids: Vec<String> =
        lines.iter().map(|l| parse(l)["id"].as_str().unwrap().to_string()).collect();
    assert_eq!(ids, ["grove-1", "grove-2", "grove-3"]);
    assert_eq!(herdr.seq, 3);
}

#[test]
fn asking_for_the_cell_size_names_the_pane() {
    let mut herdr = session();
    assert_eq!(
        herdr.info(),
        "{\"id\":\"grove-1\",\"method\":\"pane.graphics.info\",\"params\":{\"pane_id\":\"pane-7\"}}\n"
    );
}

#[test]
fn clearing_names_the_layer() {
    let mut herdr = session();
    assert_eq!(
        herdr.clear(),
        "{\"id\":\"grove-1\",\"method\":\"pane.graphics.clear\",\"params\":\
         {\"layer_id\":\"grove-preview\",\"pane_id\":\"pane-7\"}}\n"
    );
}

#[test]
fn placing_a_picture_says_what_and_where() {
    let mut herdr = session();
    let png = vec![0x89, b'P', b'N', b'G', 0, 255, 254];
    let rect = Rect { x: 20, y: 1, width: 13, height: 6 };
    let request = parse(&herdr.set(&png, (208, 204), rect));
    assert_eq!(request["method"], "pane.graphics.set");
    let params = &request["params"];
    assert_eq!(params["pane_id"], "pane-7");
    assert_eq!(params["format"], "png");
    assert_eq!(params["image_width"], 208);
    assert_eq!(params["image_height"], 204);
    assert_eq!(
        params["data_base64"],
        base64::engine::general_purpose::STANDARD.encode(&png).as_str()
    );
    assert_eq!(params["layer_id"], "grove-preview");
    assert_eq!(params["z_index"], 1);
    assert_eq!(params["placement"]["grid_cols"], 13);
    assert_eq!(params["placement"]["grid_rows"], 6);
    assert_eq!(params["placement"]["viewport_col"], 20);
    assert_eq!(params["placement"]["viewport_row"], 1);
    assert_eq!(params.as_object().unwrap().len(), 8);
    assert_eq!(params["placement"].as_object().unwrap().len(), 4);
    assert_eq!(request.as_object().unwrap().len(), 3);
}

#[test]
fn a_pane_id_with_a_line_break_still_makes_one_line() {
    let mut herdr = Herdr::from_env(Some("s".into()), Some("a\n\"b\"".into())).unwrap();
    assert_eq!(parse(&herdr.clear())["params"]["pane_id"], "a\n\"b\"");
}

#[test]
fn any_method_can_be_called() {
    let mut herdr = session();
    let request = parse(&herdr.call("pane.ping", serde_json::Value::Null));
    assert_eq!(request["method"], "pane.ping");
    assert!(request["params"].is_null());
}

#[test]
fn the_cell_size_is_in_the_result() {
    let size = |reply: &str| Herdr::cell_size(&Some(reply.to_string()));
    assert_eq!(
        size("{\"result\":{\"cell_width_px\":16,\"cell_height_px\":34}}\n"),
        Some((16, 34))
    );
    // Nothing that says both, and neither of them nothing.
    for reply in [
        "",
        "no",
        "[]",
        "{\"error\":\"x\"}",
        "{\"result\":null}",
        "{\"result\":{\"cell_width_px\":16}}",
        "{\"result\":{\"cell_width_px\":0,\"cell_height_px\":34}}",
        "{\"result\":{\"cell_width_px\":16,\"cell_height_px\":-34}}",
        "{\"result\":{\"cell_width_px\":16.5,\"cell_height_px\":34}}",
        "{\"result\":{\"cell_width_px\":\"16\",\"cell_height_px\":34}}",
        "{\"result\":{\"cell_width_px\":4294967296,\"cell_height_px\":34}}",
    ] {
        assert_eq!(size(reply), None, "{reply}");
    }
    assert_eq!(Herdr::cell_size(&None), None);
    // What does not fit in 32 bits loses its upper ones.
    assert_eq!(
        size("{\"result\":{\"cell_width_px\":4294967297,\"cell_height_px\":34}}"),
        Some((1, 34))
    );
}

#[test]
fn a_session_is_measured_before_it_is_used() {
    let mut herdr = session();
    herdr.info();
    let reply = Some("{\"result\":{\"cell_width_px\":16,\"cell_height_px\":34}}".to_string());
    let herdr = herdr.measured(&reply).unwrap();
    assert_eq!((herdr.cell, herdr.seq, herdr.pane.as_str()), ((16, 34), 1, "pane-7"));
    assert!(session().measured(&None).is_none());
    assert!(session().measured(&Some("{}".to_string())).is_none());
}
