use spelunkrs::input::{path_extension, require_text_input};
use spelunkrs::{FileType, InputError};

#[test]
fn from_path_returns_text_for_text_extensions() {
    for extension in FileType::TEXT_EXTENSIONS {
        let path = format!("file.{}", extension);
        let result = FileType::from_path(&path);
        assert_eq!(result.unwrap(), FileType::Text, "Expected Text for .{}", extension);
    }
}

#[test]
fn from_path_returns_media_for_media_extensions() {
    for extension in FileType::MEDIA_EXTENSIONS {
        let path = format!("file.{}", extension);
        let result = FileType::from_path(&path);
        assert_eq!(result.unwrap(), FileType::Media, "Expected Media for .{}", extension);
    }
}

#[test]
fn from_path_returns_anki_for_anki_extensions() {
    for extension in FileType::ANKI_EXTENSIONS {
        let path = format!("file.{}", extension);
        let result = FileType::from_path(&path);
        assert_eq!(result.unwrap(), FileType::Anki, "Expected Anki for .{}", extension);
    }
}

#[test]
fn from_path_returns_pdf_for_pdf_extensions() {
    for extension in FileType::PDF_EXTENSIONS {
        let path = format!("document.{}", extension);
        let result = FileType::from_path(&path);
        assert_eq!(result.unwrap(), FileType::Pdf, "Expected Pdf for .{}", extension);
    }
}

#[test]
fn from_path_returns_epub_for_epub_extensions() {
    for extension in FileType::EPUB_EXTENSIONS {
        let path = format!("novel.{}", extension);
        let result = FileType::from_path(&path);
        assert_eq!(result.unwrap(), FileType::Epub, "Expected Epub for .{}", extension);
    }
}

#[test]
fn from_path_rejects_unsupported_extensions() {
    let result = FileType::from_path("archive.zip");
    match result {
        Err(InputError::UnsupportedFileType(extension)) => assert_eq!(extension, "zip"),
        _ => panic!("Expected UnsupportedFileType, got {:?}", result),
    }
}

#[test]
fn from_path_rejects_paths_without_extensions() {
    let result = FileType::from_path("README");
    match result {
        Err(InputError::UnsupportedFileType(extension)) => assert_eq!(extension, ""),
        _ => panic!("Expected UnsupportedFileType for no extension, got {:?}", result),
    }
}

#[test]
fn from_path_accepts_uppercase_extensions() {
    assert_eq!(FileType::from_path("NOTES.MD").unwrap(), FileType::Text);
    assert_eq!(FileType::from_path("audio.MP3").unwrap(), FileType::Media);
    assert_eq!(FileType::from_path("deck.APKG").unwrap(), FileType::Anki);
}

#[test]
fn from_path_uses_last_extension_when_filename_has_multiple_dots() {
    let result = FileType::from_path("archive.tar.gz");
    match result {
        Err(InputError::UnsupportedFileType(extension)) => assert_eq!(extension, "gz"),
        _ => panic!("Expected UnsupportedFileType(\"gz\"), got {:?}", result),
    }
}

#[test]
fn from_path_accepts_str_and_string() {
    let string_slice: &str = "test.md";
    let owned_string: String = String::from("test.md");
    assert_eq!(FileType::from_path(string_slice).unwrap(), FileType::Text);
    assert_eq!(FileType::from_path(&owned_string).unwrap(), FileType::Text);
}

#[test]
fn from_path_doc_examples() {
    assert_eq!(FileType::from_path("note.md").unwrap(), FileType::Text);
    assert_eq!(FileType::from_path("audio.mp3").unwrap(), FileType::Media);
    assert!(FileType::from_path("program.exe").is_err());
}

#[test]
fn from_extension_classifies_lower_case_extensions() {
    assert_eq!(FileType::from_extension("md".to_string()).unwrap(), FileType::Text);
    assert_eq!(FileType::from_extension("anki21".to_string()).unwrap(), FileType::Anki);
    match FileType::from_extension("MD".to_string()) {
        Err(InputError::UnsupportedFileType(extension)) => assert_eq!(extension, "MD"),
        other => panic!("Expected UnsupportedFileType(\"MD\"), got {:?}", other),
    }
}

#[test]
fn path_extension_follows_std_path() {
    let cases = [
        "a/b.txt",
        "a/b.txt/",
        "a/b.txt/.",
        "a/b.txt//",
        ".bashrc",
        "..",
        "a/..",
        ".",
        "./",
        "/",
        "",
        "foo.",
        "...",
        ".a.b",
        "dir.d/file",
        "我的.笔记",
        "x/./y.md/./",
    ];
    for case in cases {
        let expected = std::path::Path::new(case)
            .extension()
            .map(|e| e.to_str().unwrap().to_string());
        assert_eq!(path_extension(case), expected, "path {:?}", case);
    }
}

#[test]
fn from_path_keeps_extension_case_folding_outside_ascii() {
    match FileType::from_path("photo.ÉPUB") {
        Err(InputError::UnsupportedFileType(extension)) => assert_eq!(extension, "épub"),
        other => panic!("Expected UnsupportedFileType(\"épub\"), got {:?}", other),
    }
}

#[test]
fn require_text_input_rejects_mp3_files() {
    match require_text_input("audio.mp3") {
        Err(InputError::UnsupportedFileType(extension)) => assert_eq!(extension, "mp3"),
        other => panic!("Expected UnsupportedFileType(\"mp3\"), got {:?}", other),
    }
}

#[test]
fn require_text_input_rejects_unsupported_file_types() {
    match require_text_input("program.exe") {
        Err(InputError::UnsupportedFileType(extension)) => assert_eq!(extension, "exe"),
        other => panic!("Expected UnsupportedFileType(\"exe\"), got {:?}", other),
    }
}

#[test]
fn require_text_input_accepts_text_files() {
    assert!(require_text_input("notes/Chapter.MARKDOWN").is_ok());
    assert!(require_text_input("subs.srt").is_ok());
}
