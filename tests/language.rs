use purport::language::{Init, LanguageError, Languages};

#[test]
fn default_languages_serve_their_extensions() {
    let l = Languages::default();
    assert_eq!(l.len(), 2);
    // the table's keys come in order: "c" before "javascript"
    assert_eq!(l.get("main.c").unwrap(), 0);
    assert_eq!(l.get("lib/app.min.js").unwrap(), 1);
    assert_eq!(l.get("js").unwrap(), 1);
    assert_eq!(l.init(0).name(), "c");
    assert_eq!(l.init(1).name(), "javascript");
    assert!(l.init(1).git_repo().starts_with("https://github.com/tree-sitter/tree-sitter-javascript/"));
    assert_eq!(l.get("main.rs").unwrap_err().0, "main.rs");
    assert_eq!(l.get("c.").unwrap_err().0, "c.");
}

#[test]
fn later_language_wins_an_extension() {
    let text = "
[a]
url = \"u1\"
hash = \"0000000000000000000000000000000000000000000000000000000000000000\"
extensions = [\"x\", \"y\"]

[b]
url = \"u2\"
hash = \"FFFFFFFFFFFFFFFFFFFFFFFFFFFFFFFFFFFFFFFFFFFFFFFFFFFFFFFFFFFFFFFF\"
extensions = [\"y\"]
";
    let l: Languages = text.parse().unwrap();
    assert_eq!(l.get("f.x").unwrap(), 0);
    assert_eq!(l.get("f.y").unwrap(), 1);
    assert_eq!(l.init(1).git_repo(), "u2");
}

#[test]
fn language_table_errors() {
    let hash = "0000000000000000000000000000000000000000000000000000000000000000";
    let t = format!("[a]\nurl = \"u\"\nhash = \"{}\"\nextensions = [\"x\"]\ncolour = \"red\"\n", hash);
    match t.parse::<Languages>() {
        Err(LanguageError::IllegalKey(k)) => assert_eq!(k, "colour"),
        other => panic!("unexpected {:?}", other),
    }
    let t = format!("[a]\nhash = \"{}\"\nextensions = [\"x\"]\n", hash);
    assert!(matches!(t.parse::<Languages>(), Err(LanguageError::LangDoesntHaveUrlAndExtensions)));
    let t = "[a]\nurl = \"u\"\nhash = \"abcd\"\nextensions = [\"x\"]\n";
    assert!(matches!(t.parse::<Languages>(), Err(LanguageError::WrongHexSize)));
    let t = "[a]\nurl = \"u\"\nhash = \"zz\"\nextensions = [\"x\"]\n";
    assert!(matches!(t.parse::<Languages>(), Err(LanguageError::Hex(_))));
    let t = "[a]\nurl = \"u\"\nhash = \"abc\"\nextensions = [\"x\"]\n";
    assert!(matches!(t.parse::<Languages>(), Err(LanguageError::Hex(_))));
    let t = format!("[a]\nurl = \"u\"\nhash = \"{}\"\nextensions = [\"x\", 3]\n", hash);
    assert!(matches!(t.parse::<Languages>(), Err(LanguageError::ExtensionIsNotString)));
    let t = format!("[a]\nurl = \"u\"\nhash = \"{}\"\nextensions = \"x\"\n", hash);
    assert!(matches!(t.parse::<Languages>(), Err(LanguageError::ExtensionsIsNotArray)));
    let t = "[a]\nurl = 1\n";
    assert!(matches!(t.parse::<Languages>(), Err(LanguageError::UrlIsNotString)));
    assert!(matches!("a = 1".parse::<Languages>(), Err(LanguageError::LanguageDataIsNotTable)));
    assert!(matches!("[a".parse::<Languages>(), Err(LanguageError::Toml(_))));
}

#[test]
fn init_keeps_repo_and_name() {
    let i = Init::new(String::from("https://example.org/g.zip"), String::from("g"));
    assert_eq!(i.git_repo(), "https://example.org/g.zip");
    assert_eq!(i.name(), "g");
}

#[test]
fn digests_are_decoded_from_hex() {
    let l = Languages::default();
    let js = l.digest(1);
    assert_eq!(js.len(), 32);
    assert_eq!(&js[..4], &[0x12, 0xd9, 0x76, 0xb6]);
    assert_eq!(js[31], 0x86);
    let c = l.digest(0);
    assert_eq!(&c[..3], &[0x06, 0x08, 0xec]);
}

#[test]
fn default_build_tools() {
    let sys = purport::language::GlobalSystemData::default();
    assert_eq!(sys.c_compiler, "gcc");
    assert_eq!(sys.cpp_compiler, "g++");
    assert_eq!(sys.target_dir, "./target/temp/");
}
