use itools::DynamicOutput;
use itools::Matches;
use itools::Output;
use itools::new_no_output;
use itools::new_open_output;
use itools::new_text_output;
use itools::new_yaml_output;
use itools::output::choose_output;

fn sample() -> Vec<Matches> {
    vec![
        Matches {
            filename: "a.png".to_string(),
            matched_files: vec!["a.png".to_string(), "b.png".to_string()],
        },
        Matches {
            filename: "b.png".to_string(),
            matched_files: vec!["a.png".to_string(), "b.png".to_string()],
        },
    ]
}

#[test]
fn text_output_lists_query_and_other_members() {
    let text = new_text_output().output(&sample());
    assert_eq!("a.png\n   b.png\nb.png\n   a.png\n", text);
}

#[test]
fn yaml_output_lists_every_member() {
    let text = new_yaml_output().output(&sample());
    assert_eq!(
        "---\n\
         - filename: a.png\n  matched_files:\n    - a.png\n    - b.png\n\
         - filename: b.png\n  matched_files:\n    - a.png\n    - b.png\n",
        text
    );
}

#[test]
fn silent_outputs_render_nothing() {
    assert_eq!("", new_no_output().output(&sample()));
    assert_eq!("", new_open_output().output(&sample()));
}

#[test]
fn output_choice_follows_the_flags() {
    assert!(matches!(choose_output(true, "text"), Ok(DynamicOutput::Silent(_))));
    assert!(matches!(choose_output(false, "none"), Ok(DynamicOutput::Silent(_))));
    assert!(matches!(choose_output(false, "open"), Ok(DynamicOutput::Open(_))));
    assert!(matches!(choose_output(false, "text"), Ok(DynamicOutput::Text(_))));
    assert!(matches!(choose_output(false, "yaml"), Ok(DynamicOutput::Yaml(_))));
    assert!(choose_output(false, "xml").is_err());
}
