use mdbook_translator::translator::{
    build_messages, check_compat, response_text, DeepSeekTranslator, TranslateError,
};

#[test]
fn new_translator_has_defaults() {
    let t = DeepSeekTranslator::new();
    assert_eq!(t.cache_file, "deepseek_cache.json");
    assert_eq!(t.target_lang, "");
    assert_eq!(t.prompt, "");
    assert_eq!(t.proxy, "");
}

#[test]
fn setters_store_their_values() {
    let mut t = DeepSeekTranslator::new();
    t.set_language("French");
    t.set_prompt("keep inline code");
    t.set_proxy("http://proxy.example:3128");
    assert_eq!(t.target_lang, "French");
    assert_eq!(t.prompt, "keep inline code");
    assert_eq!(t.proxy, "http://proxy.example:3128");
}

#[test]
fn apply_config_takes_only_present_non_empty_options() {
    let mut t = DeepSeekTranslator::new();
    t.set_language("French");
    t.apply_config(Some(""), Some("extra"), None);
    assert_eq!(t.target_lang, "French");
    assert_eq!(t.prompt, "extra");
    assert_eq!(t.proxy, "");
    t.apply_config(Some("German"), None, Some("http://p:1"));
    assert_eq!(t.target_lang, "German");
    assert_eq!(t.prompt, "extra");
    assert_eq!(t.proxy, "http://p:1");
}

#[test]
fn name_and_renderer_support() {
    let t = DeepSeekTranslator::new();
    assert_eq!(t.name(), "translator");
    assert!(t.supports_renderer("html"));
    assert!(t.supports_renderer("epub"));
}

#[test]
fn messages_without_prompt() {
    let msgs = build_messages("French", "the text", "");
    assert_eq!(msgs.len(), 2);
    assert_eq!(msgs[0].role, "system");
    assert!(msgs[0].content.contains("翻译"));
    assert_eq!(msgs[1].role, "user");
    assert_eq!(
        msgs[1].content,
        "Translate the following text into French:\n\nthe text"
    );
}

#[test]
fn messages_with_prompt() {
    let msgs = build_messages("German", "text", "use formal address");
    assert_eq!(msgs.len(), 3);
    assert_eq!(msgs[2].role, "user");
    assert_eq!(msgs[2].content, "use formal address");
}

#[test]
fn response_with_content_is_extracted() {
    let body = "{\"choices\":[{\"message\":{\"content\":\"bonjour le monde\"}}]}";
    assert_eq!(response_text(body), Ok("bonjour le monde".to_string()));
}

#[test]
fn response_without_content_field_is_empty_not_an_error() {
    assert_eq!(response_text("{}"), Ok(String::new()));
    assert_eq!(response_text("{\"choices\":[]}"), Ok(String::new()));
    assert_eq!(
        response_text("{\"choices\":[{\"message\":{\"content\":42}}]}"),
        Ok(String::new())
    );
}

#[test]
fn unparsable_response_is_a_protocol_error() {
    assert_eq!(response_text("not json at all"), Err(TranslateError::Protocol));
}

#[test]
fn compatible_versions_pass_the_check() {
    assert_eq!(check_compat("0.4.21", "0.4.40"), Ok(true));
    assert_eq!(check_compat("0.4.21", "0.3.0"), Ok(false));
}

#[test]
fn malformed_version_is_a_configuration_error() {
    assert_eq!(check_compat("not-a-version", "1.0.0"), Err(TranslateError::BadVersion));
    assert_eq!(check_compat("1.0.0", "nope"), Err(TranslateError::BadVersion));
}
