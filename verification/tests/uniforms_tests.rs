use skuggbox::uniforms::{extract_uniform, is_uniform, read_uniforms, GLSLType, UniformError};
use std::str::FromStr;

#[test]
fn is_uniform_line() {
    let line = "uniform vec2 value;".to_string();
    assert!(is_uniform(line));

    let line_with_spaces = "       uniform vec2 my_uniform;".to_string();
    assert!(is_uniform(line_with_spaces));

    let line_with_comments = "// uniform;".to_string();
    assert!(!is_uniform(line_with_comments));

    let line_with_suffix_comment = "uniform vec2 value; // a comment".to_string();
    assert!(is_uniform(line_with_suffix_comment));
}

#[test]
fn extract_uniform_valid() {
    let line = "uniform vec2 value        ; //;;".to_string();
    let uniform = extract_uniform(line).unwrap_or_else(|_| panic!("Uniform not ok"));
    assert_eq!(uniform.name, "value");
    assert_eq!(uniform.glsl_type, GLSLType::from_str("vec2").unwrap());
}

#[test]
fn extract_uniform_valid_no_trailing_semicolon() {
    let line = "uniform vec2 value;".to_string();
    let uniform = extract_uniform(line).unwrap_or_else(|_| panic!("Uniform not ok"));
    assert_eq!(uniform.name, "value");
    assert_eq!(uniform.glsl_type, GLSLType::from_str("vec2").unwrap());
}

#[test]
fn extract_uniform_errors() {
    let line = "uniform ; //;;".to_string();
    let uniform = extract_uniform(line);
    assert!(uniform.is_err());
}

#[test]
fn glsl_type_from_string() {
    assert_eq!(GLSLType::from_str("vec2").unwrap(), GLSLType::Vec2);
    assert_eq!(GLSLType::from_str("vec3").unwrap(), GLSLType::Vec3);
    assert_eq!(GLSLType::from_str("vec4").unwrap(), GLSLType::Vec4);
}

#[test]
fn glsl_type_unknown_is_type_error() {
    assert!(matches!(
        GLSLType::from_str("mat4"),
        Err(UniformError::TypeError)
    ));
}

#[test]
fn extract_uniform_missing_name_is_parse_error() {
    assert!(matches!(
        extract_uniform("uniform vec2".to_string()),
        Err(UniformError::ParseError)
    ));
    assert!(matches!(
        extract_uniform("vec2 value;".to_string()),
        Err(UniformError::ParseError)
    ));
}

#[test]
fn read_uniforms_from_source() {
    let source = "#version 330\nuniform vec2 iResolution;\nvoid main() {}\nuniform float iTime;\n"
        .to_string();
    let uniforms = read_uniforms(&source);
    assert_eq!(uniforms.len(), 2);
    assert_eq!(uniforms[0].name, "iResolution");
    assert_eq!(uniforms[0].glsl_type, GLSLType::Vec2);
    assert_eq!(uniforms[1].name, "iTime");
    assert_eq!(uniforms[1].glsl_type, GLSLType::Float);
}
