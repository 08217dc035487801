use code_harvester::harvest_file_name;
use code_harvester::harvest_segments;

#[test]
fn test_harvest_segments_cuts_at_headers() {
    let text = b"class A:\n    x = 1\ndef b():\n    y = 2\n".to_vec();
    let segments = harvest_segments(&text);
    assert_eq!(segments.len(), 2);
    assert!(segments[0].is_class);
    assert_eq!(segments[0].body, b"class A:\n    x = 1\n".to_vec());
    assert!(!segments[1].is_class);
    assert_eq!(segments[1].body, b"def b():\n    y = 2\n".to_vec());
}

#[test]
fn test_harvest_segments_drops_leading_text() {
    let text = b"import os\n\nclass A:\n    pass\n".to_vec();
    let segments = harvest_segments(&text);
    assert_eq!(segments.len(), 1);
    assert!(segments[0].is_class);
    assert_eq!(segments[0].body, b"class A:\n    pass\n".to_vec());
}

#[test]
fn test_harvest_segments_ignore_indented_headers() {
    let text = b"class A:\n    def m(self):\n        pass\n".to_vec();
    let segments = harvest_segments(&text);
    assert_eq!(segments.len(), 1);
    assert!(segments[0].is_class);
}

#[test]
fn test_harvest_segments_empty_text() {
    let segments = harvest_segments(&Vec::new());
    assert_eq!(segments.len(), 0);
}

#[test]
fn test_harvest_file_names() {
    assert_eq!(
        harvest_file_name("sample", true, "Animal"),
        "sample_Animal_class.txt"
    );
    assert_eq!(
        harvest_file_name("sample", false, "add"),
        "sample_add_function.txt"
    );
}
