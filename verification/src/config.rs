//! The configuration file and the login it stores.
use vstd::prelude::*;

verus! {

broadcast use vstd::string::group_string_axioms;

/// A stored login.
pub enum Auth {
    RefreshToken { token: String },
    EtpRt { token: String },
    Anonymous,
}

/// The content of the configuration file.
pub struct Config {
    pub auth: Option<Auth>,
}

impl Default for Config {
    /// No stored login.
    fn default() -> (r: Self)
        ensures
            r.auth is None,
    {
        Config { auth: None }
    }
}

/// Where the configuration file is, given the configuration directory's file path `path` (none
/// where the system has no configuration directory) and whether that path is a directory: a
/// missing configuration directory is an error unless it is to be ignored; a directory in place
/// of the file is an error.
pub open spec fn config_file_path_of(path: Option<Seq<char>>, is_dir: bool, ignore_non_existing_config_dir: bool) -> Result<
    Option<Seq<char>>,
    Seq<char>,
> {
    match path {
        None => if ignore_non_existing_config_dir {
            Ok(None)
        } else {
            Err("Cannot find config directory"@)
        },
        Some(p) => if is_dir {
            Err("Config path ("@ + p + ") is a directory (must be a normal file)"@)
        } else {
            Ok(Some(p))
        },
    }
}

impl Config {
    /// Checks the path of the configuration file (see [`config_file_path_of`]).
    pub fn assert_config_file_path(path: Option<String>, is_dir: bool, ignore_non_existing_config_dir: bool) -> (r: Result<
        Option<String>,
        String,
    >)
        ensures
            match r {
                Ok(o) => config_file_path_of(
                    match path {
                        Some(p) => Some(p@),
                        None => None,
                    },
                    is_dir,
                    ignore_non_existing_config_dir,
                ) == Ok::<Option<Seq<char>>, Seq<char>>(
                    match o {
                        Some(p) => Some(p@),
                        None => None,
                    },
                ),
                Err(e) => config_file_path_of(
                    match path {
                        Some(p) => Some(p@),
                        None => None,
                    },
                    is_dir,
                    ignore_non_existing_config_dir,
                ) == Err::<Option<Seq<char>>, Seq<char>>(e@),
            },
    {
        match path {
            None => if ignore_non_existing_config_dir {
                Ok(None)
            } else {
                Err(String::from_str("Cannot find config directory"))
            },
            Some(p) => if is_dir {
                let mut e = String::from_str("Config path (");
                e.append(p.as_str());
                e.append(") is a directory (must be a normal file)");
                Err(e)
            } else {
                Ok(Some(p))
            },
        }
    }
}

} // verus!
