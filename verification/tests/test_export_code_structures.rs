use code_harvester::export_file_name;
use code_harvester::export_code_structures::try_export_file_name;
use code_harvester::get_module_name;
use code_harvester::CodeStructure;
use code_harvester::PythonParser;

#[test]
fn test_get_module_name() {
    let file_path = "code_harvester/samples/sample.py";
    let expected_module_name = "sample";

    let module_name = get_module_name(file_path).unwrap();
    assert_eq!(module_name, expected_module_name);
}

#[test]
fn test_get_module_name_without_extension() {
    assert_eq!(get_module_name("dir/archive.tar").unwrap(), "archive.tar");
    assert_eq!(get_module_name("plain").unwrap(), "plain");
    assert_eq!(get_module_name("x.py").unwrap(), "x");
}

#[test]
fn test_get_module_name_invalid_path() {
    assert!(get_module_name("").is_err());
    assert!(get_module_name("/").is_err());
    assert!(get_module_name("/..").is_err());
    assert!(get_module_name("a/..").is_err());
    assert!(get_module_name(".").is_err());
}

#[test]
fn test_get_module_name_ignores_trailing_separators() {
    assert_eq!(get_module_name("some/dir/").unwrap(), "dir");
    assert_eq!(get_module_name("a/b.py//").unwrap(), "b");
}

#[test]
fn test_parser_module_name() {
    assert_eq!(PythonParser::new("dir/sample.py").get_module_name(), "sample");
    assert_eq!(PythonParser::new("mod.py").get_module_name(), "mod");
    assert_eq!(PythonParser::new("a/b.py.py").get_module_name(), "b.py");
    assert_eq!(PythonParser::new("a/noext").get_module_name(), "noext");
}

#[test]
fn test_export_file_names() {
    let f = CodeStructure::Function("def foo():\n    return 42".to_string());
    let c = CodeStructure::Class("class Bar:\n    def __init__(self, x):\n        self.x = x".to_string());
    assert_eq!(export_file_name("sample", &f), "sample_foo_function.txt");
    assert_eq!(export_file_name("sample", &c), "sample_Bar_class.txt");
}

#[test]
fn test_unindent_removes_common_indentation() {
    assert_eq!(
        PythonParser::unindent("    def x():\n        pass"),
        "def x():\n    pass"
    );
    assert_eq!(PythonParser::unindent("  a\n\n  b"), "a\n\nb");
    assert_eq!(PythonParser::unindent("top\n    nested"), "top\n    nested");
    assert_eq!(PythonParser::unindent(""), "");
}

#[test]
fn test_unindent_drops_trailing_newline() {
    assert_eq!(PythonParser::unindent("a\n"), "a");
    assert_eq!(PythonParser::unindent("  def x():\n      pass\n"), "def x():\n    pass");
}

#[test]
fn test_unindent_handles_crlf_lines() {
    assert_eq!(PythonParser::unindent("  a\r\n  b"), "a\nb");
    assert_eq!(PythonParser::unindent("  a\r\n  b\r\n"), "a\nb");
}

#[test]
fn test_try_get_name() {
    let f = CodeStructure::Function("def h\u{e9}llo(x):".to_string());
    assert_eq!(f.try_get_name().unwrap(), "h\u{e9}llo");
    let bare = CodeStructure::Function("def".to_string());
    assert!(bare.try_get_name().is_none());
    let unterminated = CodeStructure::Class("class Bar".to_string());
    assert!(unterminated.try_get_name().is_none());
}

#[test]
fn test_try_export_file_name() {
    let f = CodeStructure::Function("def foo():\n    return 42".to_string());
    assert_eq!(
        try_export_file_name("sample", &f).unwrap(),
        "sample_foo_function.txt"
    );
    let bare = CodeStructure::Function("def".to_string());
    assert!(try_export_file_name("sample", &bare).is_none());
}
