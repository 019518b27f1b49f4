use vstd::prelude::*;

verus! {

/// A named fragment of shader text: `token` identifies it, `data` is the text
/// that a matching directive in a shader body is replaced with.
pub struct ShaderStructObject {
    pub token: String,
    pub data: String,
}

/// One shader source file: `token` is its file stem, `file_name_ext` its full
/// file name (stem plus extension), and `data` its body text.
pub struct ShaderCode {
    pub token: String,
    pub file_name_ext: String,
    pub data: String,
}

impl ShaderStructObject {
    pub fn empty() -> (r: ShaderStructObject)
        ensures
            r.token@ == Seq::<char>::empty(),
            r.data@ == Seq::<char>::empty(),
    {
        ShaderStructObject { token: String::new(), data: String::new() }
    }

    pub fn new(_token: String, _data: String) -> (r: ShaderStructObject)
        ensures
            r.token == _token,
            r.data == _data,
    {
        ShaderStructObject { token: _token, data: _data }
    }
}

impl ShaderCode {
    pub fn empty() -> (r: ShaderCode)
        ensures
            r.token@ == Seq::<char>::empty(),
            r.file_name_ext@ == Seq::<char>::empty(),
            r.data@ == Seq::<char>::empty(),
    {
        ShaderCode { token: String::new(), file_name_ext: String::new(), data: String::new() }
    }

    pub fn new(_token: String, _file_name_ext: String, _data: String) -> (r: ShaderCode)
        ensures
            r.token == _token,
            r.file_name_ext == _file_name_ext,
            r.data == _data,
    {
        ShaderCode { token: _token, file_name_ext: _file_name_ext, data: _data }
    }
}

} // verus!
