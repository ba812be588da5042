//! The raw runner's seat ids, definitions and belt.

use tinyhivemind::error::Error;
use tinyhivemind::raw::{assemble_definition, belt_names, check_seat_ids, definition_file, read_only, remember, seat_definition};
use tinyhivemind::tools::EpisodeTools;

#[test]
fn a_seat_id_that_is_not_a_plain_path_component_names_no_file() {
    for id in ["", ".", "..", "../lead", "a/b", "lead\\x", "le ad", "l\u{e9}"] {
        let refused = check_seat_ids(&[(id, "Nobody.")]);
        assert!(matches!(&refused, Err(Error::UnsafeSeatId { seat }) if seat == id), "{id:?}: {refused:?}");
    }
}

#[test]
fn a_seat_id_that_is_not_one_plain_path_component_is_refused_by_name() {
    for id in ["", ".", "..", "../lead", "a/b", "lead\\x", "le ad", "l\u{e9}"] {
        let refused = check_seat_ids(&[("lead", "Leads."), (id, "Nobody.")]);
        assert!(matches!(&refused, Err(Error::UnsafeSeatId { seat }) if seat == id), "{id:?}: {refused:?}");
    }
    assert!(check_seat_ids(&[("lead", "Leads."), ("solver-2.b_c", "Solves.")]).is_ok());
}

#[test]
fn a_definition_names_its_seat_its_role_and_its_belt() {
    let text = seat_definition("lead", "Leads the desk.", &vec!["read".to_owned(), "ask".to_owned()]);
    assert_eq!(
        text,
        "id = \"lead\"\nwhen_to_use = \"Leads the desk.\"\nsystem_prompt = { inline = \"Leads the desk.\" }\ntools = { named = [\"read\", \"ask\"] }\n"
    );
    assert_eq!(definition_file("lead"), "lead.toml");
    let quoted = seat_definition("a\"b", "line\nbreak", &Vec::new());
    assert_eq!(
        quoted,
        "id = \"a\\\"b\"\nwhen_to_use = \"line\\nbreak\"\nsystem_prompt = { inline = \"line\\nbreak\" }\ntools = { named = [] }\n"
    );
}

#[test]
fn a_definition_is_assembled_from_its_quoted_pieces_as_they_are() {
    let text = assemble_definition("<id>", "<role>", &vec!["<a>".to_owned(), "<b>".to_owned(), "<c>".to_owned()]);
    assert_eq!(text, "id = <id>\nwhen_to_use = <role>\nsystem_prompt = { inline = <role> }\ntools = { named = [<a>, <b>, <c>] }\n");
    assert_eq!(assemble_definition("", "", &Vec::new()), "id = \nwhen_to_use = \nsystem_prompt = { inline =  }\ntools = { named = [] }\n");
}

#[test]
fn the_belt_is_the_served_vocabulary_and_only_read_is_read_only() {
    let tools = EpisodeTools::new(&["lead", "solver"]);
    let names = belt_names("", &tools.specs());
    let served: Vec<&str> = tools.specs().iter().map(|spec| spec.name).collect();
    assert_eq!(names, served);
    assert_eq!(names, ["broadcast", "ask", "ask_teammates", "complete_episode", "read"]);
    for spec in tools.specs() {
        assert!(spec.description.len() > 20, "{} carries the spec's words", spec.name);
    }
    let prefixed = belt_names("desk_", &tools.specs());
    assert_eq!(prefixed[4], "desk_read");
    for spec in tools.specs() {
        assert_eq!(read_only(spec.name), spec.name == "read");
    }
    let mut context = Vec::new();
    remember(&mut context, "the brief".into(), "the reply".into());
    assert_eq!(context, vec![("user".to_owned(), "the brief".to_owned()), ("assistant".to_owned(), "the reply".to_owned())]);
}
