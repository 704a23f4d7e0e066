use archgraph::imports::parse_script;
use archgraph::script::{concatenation_of, script_constants, segments_of, string_text_of};

#[test]
fn constants_strings_templates_and_concatenations() {
    let ns = parse_script("a.ts", "const BASE = '/api'\nconst url = `${BASE}/x\n/y`\nconst s = 'a' + BASE + \"b\"\n").unwrap();
    let constants = script_constants(&ns);
    let names: Vec<&str> = constants.iter().map(|(n, _)| n.as_str()).collect();
    assert_eq!(names, ["BASE", "url", "s"]);
    assert_eq!(string_text_of(&ns, constants[0].1), "/api");
    let mut template = Vec::new();
    segments_of(&ns, constants[1].1, &mut template);
    assert!(!template[0].0);
    assert_eq!(ns[template[0].2].text, "BASE");
    let chars: Vec<(char, usize)> = template[1..].iter().map(|s| (s.1, s.2)).collect();
    assert_eq!(chars, [('/', 2), ('x', 2), ('\n', 2), ('/', 3), ('y', 3)]);
    let mut joined = Vec::new();
    concatenation_of(&ns, constants[2].1, &mut joined);
    assert_eq!(joined.len(), 3);
    assert_eq!((joined[0].0, joined[0].1, joined[0].2), (true, 'a', 4));
    assert!(!joined[1].0);
    assert_eq!(ns[joined[1].2].text, "BASE");
    assert_eq!((joined[2].0, joined[2].1), (true, 'b'));
}
