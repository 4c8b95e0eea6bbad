use lang_parsing_substrate::grammar::{language_for_file, language_for_key};
use lang_parsing_substrate::registry::{
    is_parseable_extension, is_source_extension, language_info_for_file, languages, sloc_mode_for_file,
    supported_languages_report, SlocMode,
};
use tree_sitter::Language;

/// Every registered extension (recursive and explicit-only) must map to a
/// grammar via `language_for_file`, and only C extensions may map to the C
/// grammar. Guards against an extension silently failing to dispatch.
#[test]
fn every_registered_extension_maps_to_its_grammar() {
    let c_lang: Language = tree_sitter_c::LANGUAGE.into();
    for lang in &languages() {
        for ext in lang.extensions.iter().chain(lang.explicit_only) {
            let mapped = language_for_file(&format!("f.{ext}"))
                .unwrap_or_else(|| panic!(".{ext} ({}) did not map to a grammar", lang.name));
            if lang.key != "c" {
                assert_ne!(
                    mapped, c_lang,
                    ".{ext} ({}) fell through to the C grammar",
                    lang.name
                );
            }
        }
    }
}

#[test]
fn unknown_extension_has_no_language() {
    assert!(language_for_file("notes.txt").is_none());
    assert!(sloc_mode_for_file("notes.txt").is_none());
    assert!(language_for_file("noext").is_none());
}

#[test]
fn fortran_sloc_mode() {
    for ext in ["f90", "f95", "F90"] {
        assert_eq!(
            sloc_mode_for_file(&format!("modern.{ext}")),
            Some(SlocMode::Fortran),
            ".{ext} should be free-form Fortran",
        );
    }
}

#[test]
fn python_sloc_mode() {
    assert_eq!(
        sloc_mode_for_file("a.py"),
        Some(SlocMode::Python)
    );
}

/// Every `LanguageInfo.key` must be lowercase ASCII and unique — consumers
/// use it as a config-section name (e.g. `[funky.cpp]`) and would silently
/// collide on duplicates or mismatched case.
#[test]
fn keys_are_lowercase_and_unique() {
    let mut seen = std::collections::HashSet::new();
    for lang in &languages() {
        assert!(
            lang.key.chars().all(|c| c.is_ascii_lowercase()),
            "{} key {:?} is not lowercase ASCII",
            lang.name,
            lang.key
        );
        assert!(
            seen.insert(lang.key),
            "duplicate LanguageInfo.key {:?}",
            lang.key
        );
    }
}

/// `language_info_for_file` must agree with `language_for_file` on every
/// registered extension — same set of extensions resolve in both, with no
/// grammar requirement.
#[test]
fn language_info_for_file_matches_extensions() {
    for lang in &languages() {
        for ext in lang.extensions.iter().chain(lang.explicit_only) {
            let info =
                language_info_for_file(&format!("f.{ext}")).unwrap_or_else(|| {
                    panic!(".{ext} ({}) did not resolve to a LanguageInfo", lang.name)
                });
            assert_eq!(
                info.key, lang.key,
                ".{ext} resolved to the wrong LanguageInfo"
            );
        }
    }
    assert!(language_info_for_file("notes.txt").is_none());
    assert!(language_info_for_file("noext").is_none());
}

/// `is_source_extension` covers only recursive-discovery extensions;
/// `is_parseable_extension` additionally covers explicit-only ones
/// (headers, etc). An explicit-only extension must never be reported as a
/// source (discoverable) extension.
#[test]
fn source_vs_parseable_extension_distinction() {
    for lang in &languages() {
        for ext in lang.extensions {
            let os_ext = ext;
            assert!(
                is_source_extension(os_ext),
                ".{ext} ({}) should be a source extension",
                lang.name
            );
            assert!(
                is_parseable_extension(os_ext),
                ".{ext} ({}) should be parseable",
                lang.name
            );
        }
        for ext in lang.explicit_only {
            let os_ext = ext;
            assert!(
                !is_source_extension(os_ext),
                ".{ext} ({}) is explicit-only and must not be a source extension",
                lang.name
            );
            assert!(
                is_parseable_extension(os_ext),
                ".{ext} ({}) should still be parseable",
                lang.name
            );
        }
    }
    assert!(!is_source_extension("txt"));
    assert!(!is_parseable_extension("txt"));
}

/// `language_for_key` must round-trip with `LanguageInfo.key` for every
/// compiled-in language: `language_for_key(info.key)` must return the same
/// `Language` as `language_for_file` on a file with one of that language's
/// registered extensions.
#[test]
fn language_for_key_round_trips_with_language_info() {
    for lang in &languages() {
        let by_key = language_for_key(lang.key).unwrap_or_else(|| {
            panic!(
                "language_for_key({:?}) returned None for compiled-in language {}",
                lang.key, lang.name
            )
        });
        // Pick any registered extension to get the canonical Language via
        // the file-based path and verify both routes agree.
        let ext = lang
            .extensions
            .first()
            .or_else(|| lang.explicit_only.first())
            .unwrap();
        let by_file = language_for_file(&format!("f.{ext}")).unwrap_or_else(|| {
            panic!(
                ".{ext} ({}) did not resolve via language_for_file",
                lang.name
            )
        });
        assert_eq!(
            by_key, by_file,
            "language_for_key({:?}) disagrees with language_for_file for {}",
            lang.key, lang.name
        );
    }
}

/// Keys not in the registry return None.
#[test]
fn language_for_key_unknown_returns_none() {
    assert!(language_for_key("").is_none());
    assert!(language_for_key("txt").is_none());
    assert!(language_for_key("C").is_none()); // case-sensitive
}

/// The report must mention every compiled-in language's name and every one
/// of its recursive-discovery extensions, with explicit-only extensions
/// called out separately.
#[test]
fn supported_languages_report_lists_every_language() {
    let report = supported_languages_report();
    for lang in &languages() {
        assert!(
            report.contains(lang.name),
            "report missing language {}",
            lang.name
        );
        for ext in lang.extensions {
            assert!(
                report.contains(&format!(".{ext}")),
                "report missing extension .{ext} for {}",
                lang.name
            );
        }
    }
}

