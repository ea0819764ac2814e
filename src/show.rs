//! What the window shows: a title and a record, and where the record comes
//! from when it is given on the command line.

use vstd::prelude::*;
use vstd::string::*;

use crate::parse::opt_view;
use crate::secrets::{password_key, Secrets};

verus! {

/// What the window shows.
pub struct Props {
    pub title: Option<String>,
    pub secrets: Secrets,
}

/// The field name of a username given on the command line.
pub open spec fn username_key() -> Seq<char> {
    seq!['u', 's', 'e', 'r', 'n', 'a', 'm', 'e']
}

/// The record of a username and a password given by hand.
pub open spec fn credentials_of(username: Option<Seq<char>>, password: Option<Seq<char>>) -> Map<
    Seq<char>,
    Seq<char>,
> {
    let m = match username {
        Some(u) => Map::empty().insert(username_key(), u),
        None => Map::empty(),
    };
    match password {
        Some(p) => m.insert(password_key(), p),
        None => m,
    }
}

/// Where the record to show comes from.
pub enum ShowSource {
    /// The secret's text on standard input.
    Stdin,
    /// The fields given on the command line.
    Given(Secrets),
}

/// Options that do not go together.
#[derive(Clone, Copy, Debug, PartialEq, Eq, Structural)]
pub enum ShowError {
    /// Standard input was asked for, and a username or password given too.
    StdinWithFields,
}

impl ShowError {
    /// The message for the user.
    pub fn message(&self) -> (r: &'static str)
        ensures
            r@ == "password or username cannot be specified when reading from stdin"@,
    {
        match self {
            ShowError::StdinWithFields => "password or username cannot be specified when reading from stdin",
        }
    }
}

impl Secrets {
    /// The record of a username and a password given by hand, each where it
    /// is given.
    pub fn from_credentials(username: Option<String>, password: Option<String>) -> (r: Secrets)
        ensures
            r@ == credentials_of(opt_view(username), opt_view(password)),
    {
        let mut r = Secrets::empty();
        match username {
            Some(u) => {
                proof {
                    reveal_strlit("username");
                }
                let name = String::from_str("username");
                assert(name@ =~= username_key());
                r.insert(name, u);
            },
            None => {},
        }
        match password {
            Some(p) => {
                proof {
                    reveal_strlit("password");
                }
                let name = String::from_str("password");
                assert(name@ =~= password_key());
                r.insert(name, p);
            },
            None => {},
        }
        r
    }
}

/// Where the record to show comes from, given whether standard input is to
/// be read and the username and password given: reading standard input
/// excludes giving either.
pub fn show_source(stdin: bool, username: Option<String>, password: Option<String>) -> (r: Result<
    ShowSource,
    ShowError,
>)
    ensures
        r is Err <==> stdin && (username is Some || password is Some),
        r matches Err(e) ==> e == ShowError::StdinWithFields,
        r matches Ok(s) ==> (s is Stdin <==> stdin),
        r matches Ok(ShowSource::Given(s)) ==> s@ == credentials_of(
            opt_view(username),
            opt_view(password),
        ),
{
    if stdin {
        if username.is_some() || password.is_some() {
            Err(ShowError::StdinWithFields)
        } else {
            Ok(ShowSource::Stdin)
        }
    } else {
        Ok(ShowSource::Given(Secrets::from_credentials(username, password)))
    }
}

} // verus!
