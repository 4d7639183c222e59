//! What is indexed of a file, told by its name.

use crate::paths::{extension, file_name, path_extension, path_file_name};
use crate::text::{
    chars_of, eq_ignore_case, lowercase, same_ignoring_case, str_eq, text_of, to_lowercase, trim,
    trimmed,
};
use vstd::prelude::*;

verus! {

/// What is done with a file.
#[derive(Debug, Clone, PartialEq)]
pub enum FileCategory {
    /// Source code, which is parsed, in the named language.
    Code(String),
    /// Text, which is indexed as it is.
    Text,
    /// Anything else, which is passed over.
    Binary,
}

/// What is done with a file, as a mathematical value.
pub enum Category {
    Code(Seq<char>),
    Text,
    Binary,
}

impl View for FileCategory {
    type V = Category;

    open spec fn view(&self) -> Category {
        match self {
            FileCategory::Code(language) => Category::Code(language@),
            FileCategory::Text => Category::Text,
            FileCategory::Binary => Category::Binary,
        }
    }
}

/// The language of source code with a given extension.
pub open spec fn code_language(ext: Seq<char>) -> Option<Seq<char>> {
    if ext == "py"@ {
        Some("python"@)
    } else if ext == "js"@ || ext == "jsx"@ {
        Some("javascript"@)
    } else if ext == "ts"@ || ext == "tsx"@ {
        Some("typescript"@)
    } else if ext == "java"@ {
        Some("java"@)
    } else if ext == "rs"@ {
        Some("rust"@)
    } else if ext == "go"@ {
        Some("go"@)
    } else if ext == "bsl"@ || ext == "os"@ {
        Some("bsl"@)
    } else if ext == "php"@ || ext == "php5"@ || ext == "phtml"@ {
        Some("php"@)
    } else if ext == "c"@ || ext == "h"@ {
        Some("c"@)
    } else if ext == "cpp"@ || ext == "cxx"@ || ext == "cc"@ || ext == "hpp"@ || ext == "hxx"@ || ext == "hh"@ {
        Some("cpp"@)
    } else if ext == "cs"@ {
        Some("csharp"@)
    } else if ext == "rb"@ {
        Some("ruby"@)
    } else if ext == "swift"@ {
        Some("swift"@)
    } else if ext == "html"@ || ext == "htm"@ {
        Some("html"@)
    } else {
        None
    }
}

fn language_of(ext: &str) -> (r: Option<&'static str>)
    ensures
        match r {
            Some(language) => code_language(ext@) == Some(language@),
            None => code_language(ext@) is None,
        },
{
    if str_eq(ext, "py") {
        Some("python")
    } else if str_eq(ext, "js") || str_eq(ext, "jsx") {
        Some("javascript")
    } else if str_eq(ext, "ts") || str_eq(ext, "tsx") {
        Some("typescript")
    } else if str_eq(ext, "java") {
        Some("java")
    } else if str_eq(ext, "rs") {
        Some("rust")
    } else if str_eq(ext, "go") {
        Some("go")
    } else if str_eq(ext, "bsl") || str_eq(ext, "os") {
        Some("bsl")
    } else if str_eq(ext, "php") || str_eq(ext, "php5") || str_eq(ext, "phtml") {
        Some("php")
    } else if str_eq(ext, "c") || str_eq(ext, "h") {
        Some("c")
    } else if str_eq(ext, "cpp") || str_eq(ext, "cxx") || str_eq(ext, "cc") || str_eq(ext, "hpp") || str_eq(ext, "hxx") || str_eq(ext, "hh") {
        Some("cpp")
    } else if str_eq(ext, "cs") {
        Some("csharp")
    } else if str_eq(ext, "rb") {
        Some("ruby")
    } else if str_eq(ext, "swift") {
        Some("swift")
    } else if str_eq(ext, "html") || str_eq(ext, "htm") {
        Some("html")
    } else {
        None
    }
}

/// Whether a file with a given extension is text. Files of 1C:EDT, `mdo`, `form` and `rights`,
/// hold XML.
pub open spec fn is_text_extension(ext: Seq<char>) -> bool {
    ext == "md"@
        || ext == "txt"@
        || ext == "rst"@
        || ext == "json"@
        || ext == "yaml"@
        || ext == "yml"@
        || ext == "toml"@
        || ext == "xml"@
        || ext == "css"@
        || ext == "kt"@
        || ext == "csv"@
        || ext == "env"@
        || ext == "ini"@
        || ext == "cfg"@
        || ext == "sql"@
        || ext == "sh"@
        || ext == "bat"@
        || ext == "ps1"@
        || ext == "mdo"@
        || ext == "form"@
        || ext == "rights"@
}

fn text_extension(ext: &str) -> (r: bool)
    ensures
        r == is_text_extension(ext@),
{
    str_eq(ext, "md")
        || str_eq(ext, "txt")
        || str_eq(ext, "rst")
        || str_eq(ext, "json")
        || str_eq(ext, "yaml")
        || str_eq(ext, "yml")
        || str_eq(ext, "toml")
        || str_eq(ext, "xml")
        || str_eq(ext, "css")
        || str_eq(ext, "kt")
        || str_eq(ext, "csv")
        || str_eq(ext, "env")
        || str_eq(ext, "ini")
        || str_eq(ext, "cfg")
        || str_eq(ext, "sql")
        || str_eq(ext, "sh")
        || str_eq(ext, "bat")
        || str_eq(ext, "ps1")
        || str_eq(ext, "mdo")
        || str_eq(ext, "form")
        || str_eq(ext, "rights")
}

/// Whether files of a language are stored as text, too, next to what was parsed of them.
pub open spec fn dual_indexed(language: Seq<char>) -> bool {
    language == "html"@
        || language == "php"@
        || language == "c"@
        || language == "cpp"@
        || language == "csharp"@
        || language == "ruby"@
        || language == "swift"@
}

/// Whether files of a language are stored as text, too, next to what was parsed of them, so
/// that searches over texts find them.
pub fn is_dual_indexed_language(language: &str) -> (r: bool)
    ensures
        r == dual_indexed(language@),
{
    str_eq(language, "html")
        || str_eq(language, "php")
        || str_eq(language, "c")
        || str_eq(language, "cpp")
        || str_eq(language, "csharp")
        || str_eq(language, "ruby")
        || str_eq(language, "swift")
}

/// Whether a file of a 1C dump is indexed whatever its size.
pub open spec fn exempt_name(name: Seq<char>) -> bool {
    name == "Configuration.xml"@
        || name == "Rights.xml"@
        || name == "Form.xml"@
        || name == "Configuration.mdo"@
        || name == "Rights.rights"@
        || name == "Form.form"@
}

/// Whether the file that a path leads to is free of the limit on the size of texts: the table
/// of contents of a configuration, the rights of a role, the make-up of a form.
pub open spec fn size_exempt(path: Seq<char>) -> bool {
    file_name(path) matches Some(name) && exempt_name(name)
}

/// Whether the file that a path leads to is free of the limit on the size of texts.
pub fn is_size_exempt(path: &str) -> (r: bool)
    ensures
        r == size_exempt(path@),
{
    match path_file_name(path) {
        Some(name) => {
            let name = name.as_str();
            str_eq(name, "Configuration.xml")
                || str_eq(name, "Rights.xml")
                || str_eq(name, "Form.xml")
                || str_eq(name, "Configuration.mdo")
                || str_eq(name, "Rights.rights")
                || str_eq(name, "Form.form")
        },
        None => false,
    }
}

/// Whether a directory is passed over by its name.
pub open spec fn excluded_dir(name: Seq<char>) -> bool {
    name == "node_modules"@
        || name == ".venv"@
        || name == "__pycache__"@
        || name == ".git"@
        || name == ".code-index"@
        || name == "target"@
        || name == ".mypy_cache"@
        || name == ".pytest_cache"@
        || name == ".tox"@
        || name == "dist"@
        || name == "build"@
        || name == "venv"@
        || name == "env"@
        || name == ".env"@
}

/// Whether a directory is passed over by its name.
pub fn is_excluded_dir(dir_name: &str) -> (r: bool)
    ensures
        r == excluded_dir(dir_name@),
{
    str_eq(dir_name, "node_modules")
        || str_eq(dir_name, ".venv")
        || str_eq(dir_name, "__pycache__")
        || str_eq(dir_name, ".git")
        || str_eq(dir_name, ".code-index")
        || str_eq(dir_name, "target")
        || str_eq(dir_name, ".mypy_cache")
        || str_eq(dir_name, ".pytest_cache")
        || str_eq(dir_name, ".tox")
        || str_eq(dir_name, "dist")
        || str_eq(dir_name, "build")
        || str_eq(dir_name, "venv")
        || str_eq(dir_name, "env")
        || str_eq(dir_name, ".env")
}

/// The extension in lower case; empty where there is none.
pub open spec fn lower_extension(path: Seq<char>) -> Seq<char> {
    match extension(path) {
        Some(e) => lowercase(e),
        None => lowercase(Seq::empty()),
    }
}

/// The extension of a path in lower case.
pub fn path_lower_extension(path: &str) -> (r: String)
    ensures
        r@ == lower_extension(path@),
{
    let ext = match path_extension(path) {
        Some(e) => e,
        None => String::new(),
    };
    proof {
        assert(extension(path@) is None ==> ext@ =~= Seq::<char>::empty());
    }
    to_lowercase(ext.as_str())
}

/// What is done with files that have a given extension, in lower case.
pub open spec fn extension_category(ext: Seq<char>) -> Category {
    match code_language(ext) {
        Some(language) => Category::Code(language),
        None => if is_text_extension(ext) {
            Category::Text
        } else {
            Category::Binary
        },
    }
}

/// What is done with files that have a given extension, in lower case.
pub fn categorize_extension(ext: &str) -> (r: FileCategory)
    ensures
        r@ == extension_category(ext@),
{
    match language_of(ext) {
        Some(language) => FileCategory::Code(language.to_owned()),
        None => if text_extension(ext) {
            FileCategory::Text
        } else {
            FileCategory::Binary
        },
    }
}

/// What is done with a file, told by its name alone. The service list of a 1C dump holds
/// nothing to search for.
pub open spec fn category(path: Seq<char>) -> Category {
    if file_name(path) == Some("ConfigDumpInfo.xml"@) {
        Category::Binary
    } else {
        extension_category(lower_extension(path))
    }
}

/// What is done with the file that a path leads to, told by its name alone.
pub fn categorize_file(path: &str) -> (r: FileCategory)
    ensures
        r@ == category(path@),
{
    if let Some(name) = path_file_name(path) {
        if str_eq(name.as_str(), "ConfigDumpInfo.xml") {
            return FileCategory::Binary;
        }
    }
    let ext = path_lower_extension(path);
    categorize_extension(ext.as_str())
}

/// A text without the dots that it begins with.
pub open spec fn undotted(s: Seq<char>) -> Seq<char>
    decreases s.len(),
{
    if s.len() > 0 && s[0] == '.' {
        undotted(s.skip(1))
    } else {
        s
    }
}

fn without_dots(s: &str) -> (r: String)
    ensures
        r@ == undotted(s@),
{
    let chars = chars_of(s);
    let mut b: usize = 0;
    proof {
        assert(s@.skip(0) =~= s@);
    }
    while b < chars.len() && chars[b] == '.'
        invariant
            b <= chars@.len(),
            chars@ == s@,
            undotted(s@) == undotted(s@.skip(b as int)),
        decreases chars.len() - b,
    {
        proof {
            assert(s@.skip(b as int).skip(1) =~= s@.skip(b + 1));
        }
        b += 1;
    }
    proof {
        assert(s@.skip(b as int) =~= s@.subrange(b as int, s@.len() as int));
    }
    text_of(chars.as_slice(), b, chars.len())
}

/// Whether a setting names an extension: case, white space around it and leading dots do not
/// count.
pub open spec fn names_extension(setting: Seq<char>, ext: Seq<char>) -> bool {
    lowercase(undotted(trimmed(setting))) == lowercase(ext)
}

/// Whether one of the settings names an extension.
pub open spec fn any_names(extra: Seq<String>, ext: Seq<char>) -> bool {
    exists|i: int| 0 <= i < extra.len() && names_extension(#[trigger] extra[i]@, ext)
}

/// Whether one of the settings names an extension.
pub fn any_names_extension(extra: &Vec<String>, ext: &str) -> (r: bool)
    ensures
        r == any_names(extra@, ext@),
{
    let lower = to_lowercase(ext);
    let mut i: usize = 0;
    while i < extra.len()
        invariant
            i <= extra@.len(),
            lower@ == lowercase(ext@),
            forall|j: int| 0 <= j < i ==> !names_extension(#[trigger] extra@[j]@, ext@),
        decreases extra.len() - i,
    {
        let named = without_dots(trim(extra[i].as_str()).as_str());
        if str_eq(to_lowercase(named.as_str()).as_str(), lower.as_str()) {
            assert(names_extension(extra@[i as int]@, ext@));
            return true;
        }
        i += 1;
    }
    false
}

/// Whether the extension of a file is among the additional ones of a project.
pub open spec fn extra_text(path: Seq<char>, extra: Seq<String>) -> bool {
    extension(path) is Some && any_names(extra, extension(path)->0)
}

/// Whether the extension of a file is among the additional ones of a project.
pub fn matches_extra_text(path: &str, extra: &Vec<String>) -> (r: bool)
    ensures
        r == extra_text(path@, extra@),
{
    match path_extension(path) {
        Some(e) => any_names_extension(extra, e.as_str()),
        None => false,
    }
}

/// Whether a path has the extension that the headers of C and those of C++ share.
pub open spec fn is_header(path: Seq<char>) -> bool {
    extension(path) matches Some(e) && same_ignoring_case(e, seq!['h'])
}

/// What is done with a file of a repository: the additional extensions make a text of what
/// would be passed over, and in a repository of C++ the headers of C are those of C++.
pub open spec fn category_in_repo(
    path: Seq<char>,
    repo_language: Option<Seq<char>>,
    extra: Seq<String>,
) -> Category {
    let c = if category(path) is Binary && extra_text(path, extra) {
        Category::Text
    } else {
        category(path)
    };
    if repo_language == Some("cpp"@) && is_header(path) && c == Category::Code("c"@) {
        Category::Code("cpp"@)
    } else {
        c
    }
}

/// What is done with the file that a path leads to, in a repository with a language and with
/// additional extensions of texts.
pub fn categorize_file_in_repo(
    path: &str,
    repo_language: Option<&str>,
    extra_text: &Vec<String>,
) -> (r: FileCategory)
    ensures
        r@ == category_in_repo(
            path@,
            match repo_language {
                Some(language) => Some(language@),
                None => None,
            },
            extra_text@,
        ),
{
    let plain = categorize_file(path);
    let found = match plain {
        FileCategory::Binary => if matches_extra_text(path, extra_text) {
            FileCategory::Text
        } else {
            FileCategory::Binary
        },
        other => other,
    };
    let in_cpp: bool = match repo_language {
        Some(language) => str_eq(language, "cpp"),
        None => false,
    };
    if !in_cpp {
        return found;
    }
    let header: bool = match path_extension(path) {
        Some(e) => {
            proof {
                reveal_strlit("h");
                assert("h"@ =~= seq!['h']);
            }
            eq_ignore_case(e.as_str(), "h")
        },
        None => false,
    };
    match found {
        FileCategory::Code(language) => if header && str_eq(language.as_str(), "c") {
            FileCategory::Code("cpp".to_owned())
        } else {
            FileCategory::Code(language)
        },
        other => other,
    }
}

/// The language of a repository changes nothing but the headers that C and C++ share.
pub proof fn law_repo_language_touches_only_headers(
    path: Seq<char>,
    repo_language: Option<Seq<char>>,
    extra: Seq<String>,
)
    ensures
        !is_header(path) ==> category_in_repo(path, repo_language, extra) == category_in_repo(
            path,
            None,
            extra,
        ),
{
}

/// Additional extensions make texts of files that would be passed over, and change no other
/// file: they never turn code into text.
pub proof fn law_extra_extensions_only_add_texts(
    path: Seq<char>,
    repo_language: Option<Seq<char>>,
    extra: Seq<String>,
)
    ensures
        category_in_repo(path, repo_language, extra) == category_in_repo(
            path,
            repo_language,
            Seq::empty(),
        ) || (category_in_repo(path, repo_language, Seq::empty()) is Binary && category_in_repo(
            path,
            repo_language,
            extra,
        ) is Text),
{
    assert(!any_names(Seq::<String>::empty(), extension(path)->0));
}

/// Case does not count, neither in a setting nor in the name of a file, in any alphabet: texts
/// that are the same in lower case name the same extensions, and are named by the same
/// settings.
pub proof fn law_case_of_extensions_does_not_count(
    setting: Seq<char>,
    other: Seq<char>,
    ext: Seq<char>,
    other_ext: Seq<char>,
)
    requires
        lowercase(undotted(trimmed(setting))) == lowercase(undotted(trimmed(other))),
        lowercase(ext) == lowercase(other_ext),
    ensures
        names_extension(setting, ext) == names_extension(other, other_ext),
{
}

/// A setting that is written as the extension is, without white space around it and without a
/// leading dot, names it.
pub proof fn law_extension_names_itself(ext: Seq<char>)
    requires
        trimmed(ext) == ext,
        undotted(ext) == ext,
    ensures
        names_extension(ext, ext),
{
}

/// What is done with a file depends on the lower case of its extension alone: on the language where
/// there is one for it, and otherwise on whether it is that of texts. The one name that is an
/// exception is passed over.
pub proof fn law_extension_decides(path: Seq<char>, other: Seq<char>)
    requires
        file_name(path) != Some("ConfigDumpInfo.xml"@),
        file_name(other) == Some("ConfigDumpInfo.xml"@),
    ensures
        category(other) is Binary,
        match code_language(lower_extension(path)) {
            Some(language) => category(path) == Category::Code(language),
            None => if is_text_extension(lower_extension(path)) {
                category(path) is Text
            } else {
                category(path) is Binary
            },
        },
{
}

/// In a repository of C++ the headers that C and C++ share are C++; in any other they stay what they
/// are. Additional extensions make texts of files that would be passed over.
pub proof fn law_repository_decides_on_headers(path: Seq<char>, extra: Seq<String>)
    ensures
        is_header(path) && category(path) == Category::Code("c"@) ==> category_in_repo(
            path,
            Some("cpp"@),
            extra,
        ) == Category::Code("cpp"@) && category_in_repo(path, None, extra) == Category::Code("c"@),
        category(path) is Binary && extra_text(path, extra) ==> category_in_repo(path, None, extra)
            is Text,
        category(path) is Binary && !extra_text(path, extra) ==> category_in_repo(path, None, extra)
            is Binary,
        !(category(path) is Binary) ==> category_in_repo(path, None, extra) == category(path),
{
}

/// A dot before an extension in the settings does not count.
pub proof fn law_leading_dot_does_not_count(setting: Seq<char>, ext: Seq<char>)
    requires
        trimmed(setting) == seq!['.'] + ext,
    ensures
        names_extension(setting, ext) == (lowercase(undotted(ext)) == lowercase(ext)),
        ext.len() > 0 && ext[0] != '.' ==> names_extension(setting, ext),
{
    assert((seq!['.'] + ext).skip(1) =~= ext);
}

/// A file goes to the parser of its extension, whatever its path: each language has its extensions.
pub proof fn law_files_go_to_the_parser_of_their_extension(path: Seq<char>)
    requires
        file_name(path) != Some("ConfigDumpInfo.xml"@),
    ensures
        ({
            let ext = lower_extension(path);
            &&& ext == "py"@ ==> category(path) == Category::Code("python"@)
            &&& ext == "js"@ || ext == "jsx"@ ==> category(path) == Category::Code("javascript"@)
            &&& ext == "ts"@ || ext == "tsx"@ ==> category(path) == Category::Code("typescript"@)
            &&& ext == "java"@ ==> category(path) == Category::Code("java"@)
            &&& ext == "rs"@ ==> category(path) == Category::Code("rust"@)
            &&& ext == "go"@ ==> category(path) == Category::Code("go"@)
            &&& ext == "bsl"@ || ext == "os"@ ==> category(path) == Category::Code("bsl"@)
            &&& ext == "php"@ || ext == "php5"@ || ext == "phtml"@ ==> category(path) == Category::Code("php"@)
            &&& ext == "c"@ || ext == "h"@ ==> category(path) == Category::Code("c"@)
            &&& ext == "cpp"@ || ext == "cxx"@ || ext == "cc"@ || ext == "hpp"@ || ext == "hxx"@ || ext == "hh"@ ==> category(path) == Category::Code("cpp"@)
            &&& ext == "cs"@ ==> category(path) == Category::Code("csharp"@)
            &&& ext == "rb"@ ==> category(path) == Category::Code("ruby"@)
            &&& ext == "swift"@ ==> category(path) == Category::Code("swift"@)
            &&& ext == "html"@ || ext == "htm"@ ==> category(path) == Category::Code("html"@)
        }),
{
    lemma_extensions();
}

/// The texts that are stored without being parsed: those of documents, settings, scripts and data.
pub proof fn law_files_that_are_texts(path: Seq<char>)
    requires
        file_name(path) != Some("ConfigDumpInfo.xml"@),
    ensures
        ({
            let ext = lower_extension(path);
            &&& ext == "md"@ || ext == "txt"@ || ext == "rst"@ ==> category(path) is Text
            &&& ext == "json"@ || ext == "yaml"@ || ext == "yml"@ ==> category(path) is Text
            &&& ext == "toml"@ || ext == "xml"@ || ext == "css"@ ==> category(path) is Text
            &&& ext == "kt"@ || ext == "csv"@ || ext == "env"@ ==> category(path) is Text
            &&& ext == "ini"@ || ext == "cfg"@ || ext == "sql"@ ==> category(path) is Text
            &&& ext == "sh"@ || ext == "bat"@ || ext == "ps1"@ ==> category(path) is Text
            &&& ext == "mdo"@ || ext == "form"@ || ext == "rights"@ ==> category(path) is Text
        }),
{
    lemma_extensions();
}

/// The extensions are different ones.
proof fn lemma_extensions()
    ensures
        code_language("py"@) == Some("python"@),
        code_language("js"@) == Some("javascript"@),
        code_language("jsx"@) == Some("javascript"@),
        code_language("ts"@) == Some("typescript"@),
        code_language("tsx"@) == Some("typescript"@),
        code_language("java"@) == Some("java"@),
        code_language("rs"@) == Some("rust"@),
        code_language("go"@) == Some("go"@),
        code_language("bsl"@) == Some("bsl"@),
        code_language("os"@) == Some("bsl"@),
        code_language("php"@) == Some("php"@),
        code_language("php5"@) == Some("php"@),
        code_language("phtml"@) == Some("php"@),
        code_language("c"@) == Some("c"@),
        code_language("h"@) == Some("c"@),
        code_language("cpp"@) == Some("cpp"@),
        code_language("cxx"@) == Some("cpp"@),
        code_language("cc"@) == Some("cpp"@),
        code_language("hpp"@) == Some("cpp"@),
        code_language("hxx"@) == Some("cpp"@),
        code_language("hh"@) == Some("cpp"@),
        code_language("cs"@) == Some("csharp"@),
        code_language("rb"@) == Some("ruby"@),
        code_language("swift"@) == Some("swift"@),
        code_language("html"@) == Some("html"@),
        code_language("htm"@) == Some("html"@),
        code_language("md"@) is None,
        code_language("txt"@) is None,
        code_language("rst"@) is None,
        code_language("json"@) is None,
        code_language("yaml"@) is None,
        code_language("yml"@) is None,
        code_language("toml"@) is None,
        code_language("xml"@) is None,
        code_language("css"@) is None,
        code_language("kt"@) is None,
        code_language("csv"@) is None,
        code_language("env"@) is None,
        code_language("ini"@) is None,
        code_language("cfg"@) is None,
        code_language("sql"@) is None,
        code_language("sh"@) is None,
        code_language("bat"@) is None,
        code_language("ps1"@) is None,
        code_language("mdo"@) is None,
        code_language("form"@) is None,
        code_language("rights"@) is None,
{
    reveal_strlit("py");
    reveal_strlit("js");
    reveal_strlit("jsx");
    reveal_strlit("ts");
    reveal_strlit("tsx");
    reveal_strlit("java");
    reveal_strlit("rs");
    reveal_strlit("go");
    reveal_strlit("bsl");
    reveal_strlit("os");
    reveal_strlit("php");
    reveal_strlit("php5");
    reveal_strlit("phtml");
    reveal_strlit("c");
    reveal_strlit("h");
    reveal_strlit("cpp");
    reveal_strlit("cxx");
    reveal_strlit("cc");
    reveal_strlit("hpp");
    reveal_strlit("hxx");
    reveal_strlit("hh");
    reveal_strlit("cs");
    reveal_strlit("rb");
    reveal_strlit("swift");
    reveal_strlit("html");
    reveal_strlit("htm");
    reveal_strlit("md");
    reveal_strlit("txt");
    reveal_strlit("rst");
    reveal_strlit("json");
    reveal_strlit("yaml");
    reveal_strlit("yml");
    reveal_strlit("toml");
    reveal_strlit("xml");
    reveal_strlit("css");
    reveal_strlit("kt");
    reveal_strlit("csv");
    reveal_strlit("env");
    reveal_strlit("ini");
    reveal_strlit("cfg");
    reveal_strlit("sql");
    reveal_strlit("sh");
    reveal_strlit("bat");
    reveal_strlit("ps1");
    reveal_strlit("mdo");
    reveal_strlit("form");
    reveal_strlit("rights");
    assert("py"@.len() == 2 && "py"@[0] == 'p' && "py"@[1] == 'y');
    assert("js"@.len() == 2 && "js"@[0] == 'j' && "js"@[1] == 's');
    assert("jsx"@.len() == 3 && "jsx"@[0] == 'j' && "jsx"@[1] == 's' && "jsx"@[2] == 'x');
    assert("ts"@.len() == 2 && "ts"@[0] == 't' && "ts"@[1] == 's');
    assert("tsx"@.len() == 3 && "tsx"@[0] == 't' && "tsx"@[1] == 's' && "tsx"@[2] == 'x');
    assert("java"@.len() == 4 && "java"@[0] == 'j' && "java"@[1] == 'a' && "java"@[2] == 'v' && "java"@[3] == 'a');
    assert("rs"@.len() == 2 && "rs"@[0] == 'r' && "rs"@[1] == 's');
    assert("go"@.len() == 2 && "go"@[0] == 'g' && "go"@[1] == 'o');
    assert("bsl"@.len() == 3 && "bsl"@[0] == 'b' && "bsl"@[1] == 's' && "bsl"@[2] == 'l');
    assert("os"@.len() == 2 && "os"@[0] == 'o' && "os"@[1] == 's');
    assert("php"@.len() == 3 && "php"@[0] == 'p' && "php"@[1] == 'h' && "php"@[2] == 'p');
    assert("php5"@.len() == 4 && "php5"@[0] == 'p' && "php5"@[1] == 'h' && "php5"@[2] == 'p' && "php5"@[3] == '5');
    assert("phtml"@.len() == 5 && "phtml"@[0] == 'p' && "phtml"@[1] == 'h' && "phtml"@[2] == 't' && "phtml"@[3] == 'm' && "phtml"@[4] == 'l');
    assert("c"@.len() == 1 && "c"@[0] == 'c');
    assert("h"@.len() == 1 && "h"@[0] == 'h');
    assert("cpp"@.len() == 3 && "cpp"@[0] == 'c' && "cpp"@[1] == 'p' && "cpp"@[2] == 'p');
    assert("cxx"@.len() == 3 && "cxx"@[0] == 'c' && "cxx"@[1] == 'x' && "cxx"@[2] == 'x');
    assert("cc"@.len() == 2 && "cc"@[0] == 'c' && "cc"@[1] == 'c');
    assert("hpp"@.len() == 3 && "hpp"@[0] == 'h' && "hpp"@[1] == 'p' && "hpp"@[2] == 'p');
    assert("hxx"@.len() == 3 && "hxx"@[0] == 'h' && "hxx"@[1] == 'x' && "hxx"@[2] == 'x');
    assert("hh"@.len() == 2 && "hh"@[0] == 'h' && "hh"@[1] == 'h');
    assert("cs"@.len() == 2 && "cs"@[0] == 'c' && "cs"@[1] == 's');
    assert("rb"@.len() == 2 && "rb"@[0] == 'r' && "rb"@[1] == 'b');
    assert("swift"@.len() == 5 && "swift"@[0] == 's' && "swift"@[1] == 'w' && "swift"@[2] == 'i' && "swift"@[3] == 'f' && "swift"@[4] == 't');
    assert("html"@.len() == 4 && "html"@[0] == 'h' && "html"@[1] == 't' && "html"@[2] == 'm' && "html"@[3] == 'l');
    assert("htm"@.len() == 3 && "htm"@[0] == 'h' && "htm"@[1] == 't' && "htm"@[2] == 'm');
    assert("md"@.len() == 2 && "md"@[0] == 'm' && "md"@[1] == 'd');
    assert("txt"@.len() == 3 && "txt"@[0] == 't' && "txt"@[1] == 'x' && "txt"@[2] == 't');
    assert("rst"@.len() == 3 && "rst"@[0] == 'r' && "rst"@[1] == 's' && "rst"@[2] == 't');
    assert("json"@.len() == 4 && "json"@[0] == 'j' && "json"@[1] == 's' && "json"@[2] == 'o' && "json"@[3] == 'n');
    assert("yaml"@.len() == 4 && "yaml"@[0] == 'y' && "yaml"@[1] == 'a' && "yaml"@[2] == 'm' && "yaml"@[3] == 'l');
    assert("yml"@.len() == 3 && "yml"@[0] == 'y' && "yml"@[1] == 'm' && "yml"@[2] == 'l');
    assert("toml"@.len() == 4 && "toml"@[0] == 't' && "toml"@[1] == 'o' && "toml"@[2] == 'm' && "toml"@[3] == 'l');
    assert("xml"@.len() == 3 && "xml"@[0] == 'x' && "xml"@[1] == 'm' && "xml"@[2] == 'l');
    assert("css"@.len() == 3 && "css"@[0] == 'c' && "css"@[1] == 's' && "css"@[2] == 's');
    assert("kt"@.len() == 2 && "kt"@[0] == 'k' && "kt"@[1] == 't');
    assert("csv"@.len() == 3 && "csv"@[0] == 'c' && "csv"@[1] == 's' && "csv"@[2] == 'v');
    assert("env"@.len() == 3 && "env"@[0] == 'e' && "env"@[1] == 'n' && "env"@[2] == 'v');
    assert("ini"@.len() == 3 && "ini"@[0] == 'i' && "ini"@[1] == 'n' && "ini"@[2] == 'i');
    assert("cfg"@.len() == 3 && "cfg"@[0] == 'c' && "cfg"@[1] == 'f' && "cfg"@[2] == 'g');
    assert("sql"@.len() == 3 && "sql"@[0] == 's' && "sql"@[1] == 'q' && "sql"@[2] == 'l');
    assert("sh"@.len() == 2 && "sh"@[0] == 's' && "sh"@[1] == 'h');
    assert("bat"@.len() == 3 && "bat"@[0] == 'b' && "bat"@[1] == 'a' && "bat"@[2] == 't');
    assert("ps1"@.len() == 3 && "ps1"@[0] == 'p' && "ps1"@[1] == 's' && "ps1"@[2] == '1');
    assert("mdo"@.len() == 3 && "mdo"@[0] == 'm' && "mdo"@[1] == 'd' && "mdo"@[2] == 'o');
    assert("form"@.len() == 4 && "form"@[0] == 'f' && "form"@[1] == 'o' && "form"@[2] == 'r' && "form"@[3] == 'm');
    assert("rights"@.len() == 6 && "rights"@[0] == 'r' && "rights"@[1] == 'i' && "rights"@[2] == 'g' && "rights"@[3] == 'h' && "rights"@[4] == 't' && "rights"@[5] == 's');
}

} // verus!
