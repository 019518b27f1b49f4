use shader_language::shader_objects::{ShaderCode, ShaderStructObject};
use shader_language::substitute::{contains_pattern, edit_shader_code, make_directive, replace_directive};

fn frag(token: &str, data: &str) -> ShaderStructObject {
    ShaderStructObject::new(token.to_string(), data.to_string())
}

fn shader(token: &str, name: &str, data: &str) -> ShaderCode {
    ShaderCode::new(token.to_string(), name.to_string(), data.to_string())
}

fn run_pass(body: &str, frags: &Vec<ShaderStructObject>) -> String {
    let mut sc = shader("s", "s.vert", body);
    edit_shader_code(&mut sc, frags);
    sc.data
}

#[test]
fn no_directives_is_identity() {
    let frags = vec![frag("Camera", "mat4 viewProj;")];
    let body = "void main() {\n    gl_Position = vec4(0.0);\n}\n";
    assert_eq!(run_pass(body, &frags), body);
}

#[test]
fn no_fragments_is_identity() {
    let frags: Vec<ShaderStructObject> = Vec::new();
    let body = "#include Camera\nvoid main(){}";
    assert_eq!(run_pass(body, &frags), body);
}

#[test]
fn camera_scenario() {
    let frags = vec![frag("Camera", "mat4 viewProj;")];
    let mut sc = shader("main", "main.vert", "#include Camera\nvoid main(){}");
    edit_shader_code(&mut sc, &frags);
    assert_eq!(sc.data, "mat4 viewProj;\nvoid main(){}");
    assert_eq!(sc.file_name_ext, "main.vert");
    assert_eq!(sc.token, "main");
}

#[test]
fn single_occurrence_keeps_surrounding_text() {
    let frags = vec![frag("Light", "vec3 lightDir;")];
    let body = "before\n".to_string() + &make_directive("Light") + "\nafter";
    assert_eq!(run_pass(&body, &frags), "before\nvec3 lightDir;\nafter");
}

#[test]
fn unknown_directive_left_verbatim() {
    let frags = vec![frag("Camera", "mat4 viewProj;")];
    let directive = make_directive("Unknown");
    let body = directive.clone() + "\nvoid main(){}";
    assert_eq!(run_pass(&body, &frags), body);
}

#[test]
fn two_occurrences_both_replaced() {
    let frags = vec![frag("Camera", "mat4 viewProj;")];
    let d = make_directive("Camera");
    let body = d.clone() + "\nmid\n" + &d + "\nend";
    assert_eq!(run_pass(&body, &frags), "mat4 viewProj;\nmid\nmat4 viewProj;\nend");
}

#[test]
fn substitution_is_not_idempotent() {
    // The fragment's own body holds another valid directive, so a second pass
    // over a first pass's output expands further.
    let inner = make_directive("A");
    let frags = vec![frag("A", &("x ".to_string() + &inner))];
    let body = make_directive("A");
    let once = run_pass(&body, &frags);
    assert_eq!(once, "x ".to_string() + &inner);
    let twice = run_pass(&once, &frags);
    assert_eq!(twice, "x x ".to_string() + &inner);
    assert_ne!(once, twice);
}

#[test]
fn later_fragment_scans_substituted_text() {
    // A fragment inserted early in the pass is scanned by fragments that come
    // later in the collection, in collection order.
    let frags = vec![
        frag("A", &("a ".to_string() + &make_directive("B"))),
        frag("B", "b"),
    ];
    let body = make_directive("A");
    assert_eq!(run_pass(&body, &frags), "a b");
    // In the opposite order the inserted directive is never rescanned.
    let frags_rev = vec![frag("B", "b"), frag("A", &("a ".to_string() + &make_directive("B")))];
    assert_eq!(run_pass(&body, &frags_rev), "a ".to_string() + &make_directive("B"));
}

#[test]
fn token_prefix_directive_is_raw_substring_match() {
    // Raw substring matching: the directive of a token that opens a longer
    // token also matches inside the longer directive.
    let frags = vec![frag("Light", "L")];
    let body = make_directive("LightData");
    assert_eq!(run_pass(&body, &frags), "LData");
}

#[test]
fn directive_text_is_marker_plus_token() {
    assert_eq!(make_directive("Camera"), "#include Camera");
    assert_eq!(make_directive(""), "#include ");
}

#[test]
fn contains_pattern_reports_occurrences() {
    assert!(contains_pattern("abc def", "c d"));
    assert!(!contains_pattern("abc def", "cd"));
    assert!(contains_pattern("", ""));
    assert!(!contains_pattern("", "x"));
}

#[test]
fn replace_directive_replaces_every_occurrence() {
    assert_eq!(replace_directive("xAxAx", "A", "BB"), "xBBxBBx");
    assert_eq!(replace_directive("aaa", "aa", "b"), "ba");
    assert_eq!(replace_directive("no match", "zz", "y"), "no match");
}
