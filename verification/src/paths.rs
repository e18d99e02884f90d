//! Where the application keeps its files: a folder of its own in the user's
//! data directory.
use vstd::prelude::*;

verus! {

/// The folder of the application.
pub const APP_DIR_NAME: &'static str = "Splitstream";

/// The configuration file in it.
pub const CONFIG_FILE_NAME: &'static str = "splitstream.toml";

/// The folder of the log files in it.
pub const LOG_DIR_NAME: &'static str = "logs";

/// A character that separates the parts of a path. A slash does everywhere,
/// also where the separator that is written is a backslash.
pub open spec fn separates(c: char, separator: char) -> bool {
    c == separator || (separator == '\\' && c == '/')
}

/// A directory and a name below it, as one path.
pub open spec fn below(dir: Seq<char>, separator: char, name: Seq<char>) -> Seq<char> {
    if dir.len() == 0 || separates(dir.last(), separator) {
        dir + name
    } else {
        dir.push(separator) + name
    }
}

/// The path of an application file: in the application's folder of the data
/// directory, or in the current directory where no data directory is known.
pub open spec fn placed(data_dir: Option<Seq<char>>, separator: char, name: Seq<char>) -> Seq<char> {
    match data_dir {
        Some(dir) => below(below(dir, separator, APP_DIR_NAME@), separator, name),
        None => name,
    }
}

/// `directories::BaseDirs::new` and its `data_dir`: the data directory of the
/// user, or `None` where the system knows no home directory. Nothing is
/// claimed of the text, which is up to the machine and the user; where the
/// directory is not Unicode, `to_string_lossy` spells it with replacement
/// characters.
#[verifier::external_body]
fn user_data_dir() -> (r: Option<String>) {
    directories::BaseDirs::new().map(|dirs| dirs.data_dir().to_string_lossy().into_owned())
}

/// `std::path::MAIN_SEPARATOR`: what stands between the parts of a path here.
/// Nothing is claimed of it, since it differs between systems.
#[verifier::external_body]
fn path_separator() -> (r: char) {
    std::path::MAIN_SEPARATOR
}

fn join(dir: &str, separator: char, name: &str) -> (r: String)
    ensures
        r@ == below(dir@, separator, name@),
{
    let mut all: Vec<char> = crate::text::chars_of(dir);
    let n: usize = all.len();
    if n > 0 {
        let last: char = all[n - 1];
        if last != separator && !(separator == '\\' && last == '/') {
            all.push(separator);
        }
    }
    let text = crate::text::text_of(&all);
    text.as_str().to_owned().concat(name)
}

/// The path of one application file, given what the system knows.
pub fn app_path(data_dir: &Option<String>, separator: char, name: &str) -> (r: String)
    ensures
        r@ == placed(data_dir.deep_view(), separator, name@),
{
    match data_dir {
        Some(dir) => {
            let folder = join(dir.as_str(), separator, APP_DIR_NAME);
            join(folder.as_str(), separator, name)
        },
        None => name.to_owned(),
    }
}

/// The system has answered that the user's data directory is this one.
pub closed spec fn is_user_data_dir(dir: Option<String>) -> bool {
    call_ensures(user_data_dir, (), dir)
}

/// The system has answered that this separates the parts of a path.
pub closed spec fn is_path_separator(separator: char) -> bool {
    call_ensures(path_separator, (), separator)
}

/// An application file of that name, placed by what the system answered.
pub open spec fn is_placed(path: Seq<char>, name: Seq<char>) -> bool {
    exists|dir: Option<String>, separator: char|
        #![trigger is_user_data_dir(dir), is_path_separator(separator)]
        {
            &&& is_user_data_dir(dir)
            &&& is_path_separator(separator)
            &&& path == placed(dir.deep_view(), separator, name)
        }
}

/// Where the configuration file is.
pub fn config_path() -> (r: String)
    ensures
        is_placed(r@, CONFIG_FILE_NAME@),
{
    let dir = user_data_dir();
    let separator = path_separator();
    assert(is_user_data_dir(dir) && is_path_separator(separator));
    app_path(&dir, separator, CONFIG_FILE_NAME)
}

/// Where the log files are.
pub fn log_dir() -> (r: String)
    ensures
        is_placed(r@, LOG_DIR_NAME@),
{
    let dir = user_data_dir();
    let separator = path_separator();
    assert(is_user_data_dir(dir) && is_path_separator(separator));
    app_path(&dir, separator, LOG_DIR_NAME)
}

/// Every file of the application lies in its own folder of the data directory,
/// whatever that is called; where no data directory is known, it lies in the
/// current one.
pub proof fn files_lie_in_the_folder(dir: Seq<char>, separator: char, name: Seq<char>)
    requires
        separator == '/' || separator == '\\',
    ensures
        dir.is_prefix_of(placed(Some(dir), separator, name)),
        (APP_DIR_NAME@.push(separator) + name).is_suffix_of(placed(Some(dir), separator, name)),
        placed(None, separator, name) == name,
{
    reveal_strlit("Splitstream");
    let folder = below(dir, separator, APP_DIR_NAME@);
    assert(folder.last() == 'm');
    let path = placed(Some(dir), separator, name);
    let tail = APP_DIR_NAME@.push(separator) + name;
    assert(path == folder.push(separator) + name);
    assert(path.subrange(path.len() - tail.len(), path.len() as int) =~= tail);
    assert(path.take(dir.len() as int) =~= dir);
}

} // verus!
