use shader_language::shader_objects::{ShaderCode, ShaderStructObject};

#[test]
fn empty_objects_have_empty_fields() {
    let s = ShaderStructObject::empty();
    assert_eq!(s.token, "");
    assert_eq!(s.data, "");
    let c = ShaderCode::empty();
    assert_eq!(c.token, "");
    assert_eq!(c.file_name_ext, "");
    assert_eq!(c.data, "");
}

#[test]
fn new_objects_keep_their_fields() {
    let s = ShaderStructObject::new("Camera".to_string(), "mat4 viewProj;".to_string());
    assert_eq!(s.token, "Camera");
    assert_eq!(s.data, "mat4 viewProj;");
    let c = ShaderCode::new(
        "main".to_string(),
        "main.vert".to_string(),
        "void main(){}".to_string(),
    );
    assert_eq!(c.token, "main");
    assert_eq!(c.file_name_ext, "main.vert");
    assert_eq!(c.data, "void main(){}");
}
