use hloc::languages::{
    LanguageGuess, detect_language, detect_language_from_file_name, detect_language_from_shebang,
    language_from_shebang_env,
};

fn detected(g: LanguageGuess) -> Option<String> {
    match g {
        LanguageGuess::Detected(l) => Some(l),
        _ => None,
    }
}

#[test]
fn file_names_designate_languages() {
    assert_eq!(detect_language_from_file_name("Makefile"), Some("Makefile".to_string()));
    assert_eq!(detect_language_from_file_name("CMakeLists.txt"), Some("CMake".to_string()));
    assert_eq!(detect_language_from_file_name("BUILD"), Some("Bazel".to_string()));
    assert_eq!(detect_language_from_file_name("packages.config"), Some("NuGet Config".to_string()));
    assert_eq!(detect_language_from_file_name("main.rs"), None);
}

#[test]
fn table_names_are_tokei_names() {
    for file in [
        "build", "cmakelists.txt", "dockerfile", "justfile", "makefile", "meson.build", "nuget.config", "pkgbuild",
        "rakefile", "sconstruct", "snakefile",
    ] {
        let name = detect_language_from_file_name(file).unwrap();
        assert_eq!(tokei::LanguageType::from_name(&name).unwrap().name(), name);
    }
    for word in [
        "bash", "csh", "crystal", "cython", "elvish", "fish", "groovy", "just", "ksh", "python", "racket", "raku", "ruby",
        "sh",
    ] {
        let name = language_from_shebang_env(word).unwrap();
        assert_eq!(tokei::LanguageType::from_name(&name).unwrap().name(), name);
    }
}

#[test]
fn extensions_and_contents() {
    assert_eq!(detected(detect_language("main.rs")), Some("Rust".to_string()));
    assert_eq!(detected(detect_language("Main.JAVA")), Some("Java".to_string()));
    assert_eq!(detected(detect_language("Dockerfile")), Some("Dockerfile".to_string()));
    assert!(matches!(detect_language("notes.unknownext"), LanguageGuess::Unknown));
    assert!(matches!(detect_language("script"), LanguageGuess::NeedsContent));
}

#[test]
fn shebang_lines() {
    assert_eq!(detect_language_from_shebang(b"#!/usr/bin/env python3\nprint(1)\n"), Some("Python".to_string()));
    assert_eq!(detect_language_from_shebang(b"#!/usr/bin/env   bash\r\n"), Some("BASH".to_string()));
    assert_eq!(detect_language_from_shebang(b"#!/bin/bash\necho"), Some("BASH".to_string()));
    assert_eq!(detect_language_from_shebang(b"#!/bin/sh"), Some("Shell".to_string()));
    assert_eq!(detect_language_from_shebang(b"#!/usr/bin/env\n"), None);
    assert_eq!(detect_language_from_shebang(b"#!/usr/bin/env unknown\n"), None);
    assert_eq!(
        detect_language_from_shebang("#!/usr/bin/env\u{3000}ruby\u{a0}-w\n".as_bytes()),
        Some("Ruby".to_string())
    );
    assert_eq!(detect_language_from_shebang("#!/usr/bin/env\u{200b}ruby\n".as_bytes()), None);
    assert_eq!(detect_language_from_shebang(b"hello world\n"), None);
    assert_eq!(detect_language_from_shebang(b""), None);
    assert_eq!(detect_language_from_shebang(b"\xff\xfe#!/bin/sh\n"), None);
    assert_eq!(language_from_shebang_env("perl6"), Some("Raku".to_string()));
    assert_eq!(language_from_shebang_env("node"), None);
}
