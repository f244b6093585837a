use symdex::config::{Config, LanguageConfig};
use symdex::parser::Parser;
use symdex::symbol::Kind;

fn rust_config() -> Config {
    let language: tree_sitter::Language = tree_sitter_rust::LANGUAGE.into();
    let fn_query =
        tree_sitter::Query::new(&language, "(function_item name: (identifier) @name)").unwrap();
    let struct_query =
        tree_sitter::Query::new(&language, "(struct_item name: (type_identifier) @name)").unwrap();
    Config {
        languages: vec![LanguageConfig {
            name: "rust".to_string(),
            extensions: vec!["rs".to_string()],
            embedded_script: false,
            language,
            symbol_queries: vec![
                (Kind::Function, vec![fn_query]),
                (Kind::Class, vec![struct_query]),
            ],
        }],
    }
}

fn vue_config() -> Config {
    let language: tree_sitter::Language = tree_sitter_javascript::LANGUAGE.into();
    let fn_query =
        tree_sitter::Query::new(&language, "(function_declaration name: (identifier) @name)")
            .unwrap();
    Config {
        languages: vec![LanguageConfig {
            name: "vue".to_string(),
            extensions: vec!["vue".to_string()],
            embedded_script: true,
            language,
            symbol_queries: vec![(Kind::Function, vec![fn_query])],
        }],
    }
}

#[test]
fn rust_symbols_are_found_with_one_based_positions() {
    let config = rust_config();
    let parser = Parser::from_path(&config, "lib.rs").unwrap();
    let symbols = parser.on_symbol("fn alpha() {}\nstruct Beta;\n").unwrap();
    assert_eq!(symbols.len(), 2);
    assert_eq!(symbols[0].text, "alpha");
    assert_eq!(symbols[0].kind, Kind::Function);
    assert_eq!(symbols[0].span.start.line, 1);
    assert_eq!(symbols[0].span.start.column, 4);
    assert_eq!(symbols[0].span.end, symbols[0].span.start);
    assert_eq!(symbols[1].text, "Beta");
    assert_eq!(symbols[1].kind, Kind::Class);
    assert_eq!(symbols[1].span.start.line, 2);
    assert_eq!(symbols[1].span.start.column, 8);
}

#[test]
fn duplicate_start_positions_yield_one_symbol_first_kind_wins() {
    let language: tree_sitter::Language = tree_sitter_rust::LANGUAGE.into();
    let q1 =
        tree_sitter::Query::new(&language, "(function_item name: (identifier) @name)").unwrap();
    let q2 =
        tree_sitter::Query::new(&language, "(function_item name: (identifier) @name)").unwrap();
    let config = Config {
        languages: vec![LanguageConfig {
            name: "rust".to_string(),
            extensions: vec!["rs".to_string()],
            embedded_script: false,
            language,
            symbol_queries: vec![(Kind::Function, vec![q1]), (Kind::Method, vec![q2])],
        }],
    };
    let parser = Parser::from_path(&config, "dup.rs").unwrap();
    let symbols = parser.on_symbol("fn only() {}\n").unwrap();
    assert_eq!(symbols.len(), 1);
    assert_eq!(symbols[0].text, "only");
    assert_eq!(symbols[0].kind, Kind::Function);
}

#[test]
fn unsupported_extension_is_not_indexed_and_is_no_error() {
    let config = rust_config();
    assert!(Parser::from_path(&config, "notes.txt").is_none());
    assert!(Parser::from_path(&config, "README").is_none());
    assert!(Parser::from_path(&config, ".hidden").is_none());
}

#[test]
fn vue_script_symbols_keep_absolute_line_numbers() {
    // The script region begins at source line 10; the declaration on the
    // first line inside it sits at absolute line 11 and must be reported
    // there, not at line 1 of the extracted fragment.
    let content = "<template>\n\
                   <div>1</div>\n\
                   <div>2</div>\n\
                   <div>3</div>\n\
                   <div>4</div>\n\
                   <div>5</div>\n\
                   <div>6</div>\n\
                   <div>7</div>\n\
                   </template>\n\
                   <script>\n\
                   function hello() {}\n\
                   </script>\n";
    let config = vue_config();
    let parser = Parser::from_path(&config, "src/App.vue").unwrap();
    let symbols = parser.on_symbol(content).unwrap();
    assert_eq!(symbols.len(), 2);
    assert_eq!(symbols[0].text, "App");
    assert_eq!(symbols[0].kind, Kind::Class);
    assert_eq!(symbols[0].span.start.line, 1);
    assert_eq!(symbols[0].span.start.column, 1);
    assert_eq!(symbols[1].text, "hello");
    assert_eq!(symbols[1].span.start.line, 11);
}

#[test]
fn vue_without_script_region_yields_only_the_component_name() {
    let config = vue_config();
    let parser = Parser::from_path(&config, "Empty.vue").unwrap();
    let symbols = parser.on_symbol("<template>\n<div></div>\n</template>\n").unwrap();
    assert_eq!(symbols.len(), 1);
    assert_eq!(symbols[0].text, "Empty");
    assert_eq!(symbols[0].kind, Kind::Class);
}

#[test]
fn extract_vue_script_pads_with_blank_lines() {
    let content: Vec<char> = "<template>\n</template>\n<script>\nlet x = 1;\n</script>\n"
        .chars()
        .collect();
    let script = Parser::extract_vue_script(&content).unwrap();
    let text: String = script.iter().collect();
    assert_eq!(text, "\n\n\nlet x = 1;");
}

#[test]
fn extract_vue_script_without_close_marker_finds_nothing() {
    let content: Vec<char> = "<script>\nlet x = 1;\n".chars().collect();
    assert!(Parser::extract_vue_script(&content).is_none());
}

#[test]
fn vue_component_name_strips_directory_and_extension() {
    assert_eq!(Parser::vue_component_name("/a/b/App.vue").unwrap(), "App");
    assert_eq!(Parser::vue_component_name("Widget.vue").unwrap(), "Widget");
    assert_eq!(Parser::vue_component_name("noext").unwrap(), "noext");
    assert!(Parser::vue_component_name("").is_none());
}
