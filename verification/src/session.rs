//! How the command line chooses a login and a language for the session with the service, and
//! what is stored of a login.
use vstd::prelude::*;
use crate::text::{chars_of, string_from, slice_vec};
use crate::locale::{Locale, LocaleView, tag, human_name, views};

verus! {

broadcast use vstd::string::group_string_axioms;

/// The login options of the command line.
pub struct LoginMethod {
    /// `email:password`.
    pub credentials: Option<String>,
    /// A session cookie.
    pub etp_rt: Option<String>,
    /// Log in without an account.
    pub anonymous: bool,
}

/// The `login` command.
pub struct Login {
    /// Remove the stored login instead of storing one.
    pub remove: bool,
}

/// How the session logs in.
pub enum LoginPlan {
    Credentials { user: String, password: String },
    EtpRt(String),
    RefreshToken(String),
    Anonymous,
}

/// A login as a value of specifications.
pub enum LoginPlanView {
    Credentials { user: Seq<char>, password: Seq<char> },
    EtpRt(Seq<char>),
    RefreshToken(Seq<char>),
    Anonymous,
}

impl View for LoginPlan {
    type V = LoginPlanView;

    open spec fn view(&self) -> LoginPlanView {
        match self {
            LoginPlan::Credentials { user, password } => LoginPlanView::Credentials { user: user@, password: password@ },
            LoginPlan::EtpRt(t) => LoginPlanView::EtpRt(t@),
            LoginPlan::RefreshToken(t) => LoginPlanView::RefreshToken(t@),
            LoginPlan::Anonymous => LoginPlanView::Anonymous,
        }
    }
}

/// How many login options are given.
pub open spec fn method_count(m: LoginMethod) -> nat {
    (if m.credentials is Some { 1nat } else { 0nat }) + (if m.etp_rt is Some { 1nat } else { 0nat }) + (if m.anonymous {
        1nat
    } else {
        0nat
    })
}

/// How many login options are given, to the program and to the `login` command together.
pub open spec fn total_count(root: LoginMethod, login: Option<LoginMethod>) -> nat {
    method_count(root) + match login {
        Some(l) => method_count(l),
        None => 0,
    }
}

/// The index of the first `c` in `s`.
pub open spec fn first_index_of(s: Seq<char>, c: char) -> Option<nat>
    decreases s.len(),
{
    if s.len() == 0 {
        None
    } else {
        match first_index_of(s.drop_last(), c) {
            Some(i) => Some(i),
            None => if s.last() == c {
                Some((s.len() - 1) as nat)
            } else {
                None
            },
        }
    }
}

/// `s` split at its first `c` (`str::split_once`).
pub open spec fn split_once(s: Seq<char>, c: char) -> Option<(Seq<char>, Seq<char>)> {
    match first_index_of(s, c) {
        Some(i) => Some((s.subrange(0, i as int), s.subrange((i + 1) as int, s.len() as int))),
        None => None,
    }
}

/// The login of a stored session: `refresh_token:<token>` or `etp_rt:<token>`.
pub open spec fn stored_login(session: Seq<char>) -> Result<LoginPlanView, Seq<char>> {
    match split_once(session, ':') {
        Some((kind, token)) => if kind == "refresh_token"@ {
            Ok(LoginPlanView::RefreshToken(token))
        } else if kind == "etp_rt"@ {
            Ok(LoginPlanView::EtpRt(token))
        } else {
            Err("Could not read stored session ('"@ + session + "')"@)
        },
        None => Err("Could not read stored session ('"@ + session + "')"@),
    }
}

/// The login the command line asks for: with no option the stored session (if any), with more
/// than one option an error, else the one option given, to the `login` command if it has one.
pub open spec fn login_plan_of(root: LoginMethod, login: Option<LoginMethod>, stored: Option<Seq<char>>) -> Result<
    LoginPlanView,
    Seq<char>,
> {
    let total = total_count(root, login);
    if total == 0 {
        match stored {
            Some(session) => stored_login(session),
            None => Err("Please use a login method ('--credentials', '--etp-rt' or '--anonymous')"@),
        }
    } else if total > 1 {
        Err("Please use only one login method ('--credentials', '--etp-rt' or '--anonymous')"@)
    } else {
        let m = match login {
            Some(l) => if method_count(l) > 0 { l } else { root },
            None => root,
        };
        match m.credentials {
            Some(c) => match split_once(c@, ':') {
                Some((user, password)) => Ok(LoginPlanView::Credentials { user, password }),
                None => Err("Invalid credentials format. Please provide your credentials as user:password"@),
            },
            None => match m.etp_rt {
                Some(t) => Ok(LoginPlanView::EtpRt(t@)),
                None => Ok(LoginPlanView::Anonymous),
            },
        }
    }
}

fn method_count_exec(m: &LoginMethod) -> (r: u8)
    ensures
        r == method_count(*m),
{
    let mut n: u8 = 0;
    if m.credentials.is_some() {
        n = n + 1;
    }
    if m.etp_rt.is_some() {
        n = n + 1;
    }
    if m.anonymous {
        n = n + 1;
    }
    n
}

/// Whether the login comes from the stored session, because no login option is given.
pub fn needs_stored_session(root: &LoginMethod, login: &Option<LoginMethod>) -> (r: bool)
    ensures
        r == (total_count(*root, *login) == 0),
{
    let a = method_count_exec(root);
    let b = match login {
        Some(l) => method_count_exec(l),
        None => 0,
    };
    a == 0 && b == 0
}

fn first_index_exec(v: &Vec<char>, c: char) -> (r: Option<usize>)
    ensures
        match r {
            Some(i) => i < v@.len() && first_index_of(v@, c) == Some(i as nat),
            None => first_index_of(v@, c) is None,
        },
{
    let mut i: usize = 0;
    while i < v.len()
        invariant
            i <= v@.len(),
            first_index_of(v@.subrange(0, i as int), c) is None,
        decreases v@.len() - i,
    {
        assert(v@.subrange(0, i + 1).drop_last() =~= v@.subrange(0, i as int));
        if v[i] == c {
            proof { lemma_first_index_prefix(v@, (i + 1) as nat, c); }
            return Some(i);
        }
        i = i + 1;
    }
    assert(v@.subrange(0, v@.len() as int) =~= v@);
    None
}

/// The first `c` is found in the shortest prefix that holds one.
proof fn lemma_first_index_prefix(s: Seq<char>, n: nat, c: char)
    requires
        n <= s.len(),
        first_index_of(s.subrange(0, n as int), c) is Some,
    ensures
        first_index_of(s, c) == first_index_of(s.subrange(0, n as int), c),
    decreases s.len() - n,
{
    if n < s.len() {
        assert(s.subrange(0, (n + 1) as int).drop_last() =~= s.subrange(0, n as int));
        lemma_first_index_prefix(s, n + 1, c);
    } else {
        assert(s.subrange(0, n as int) =~= s);
    }
}

/// `s` split at its first `c` (see [`split_once`]).
pub fn split_once_exec(s: &str, c: char) -> (r: Option<(String, String)>)
    ensures
        match r {
            Some((a, b)) => split_once(s@, c) == Some((a@, b@)),
            None => split_once(s@, c) is None,
        },
{
    let v = chars_of(s);
    match first_index_exec(&v, c) {
        Some(i) => {
            let a = string_from(&slice_vec(&v, 0, i));
            let b = string_from(&slice_vec(&v, i + 1, v.len()));
            Some((a, b))
        },
        None => None,
    }
}

fn session_error(session: &str) -> (r: String)
    ensures
        r@ == "Could not read stored session ('"@ + session@ + "')"@,
{
    let mut e = String::from_str("Could not read stored session ('");
    e.append(session);
    e.append("')");
    e
}

/// The login of a stored session (see [`stored_login`]).
pub fn stored_session_login(session: &str) -> (r: Result<LoginPlan, String>)
    ensures
        match r {
            Ok(p) => stored_login(session@) == Ok::<LoginPlanView, Seq<char>>(p@),
            Err(e) => stored_login(session@) == Err::<LoginPlanView, Seq<char>>(e@),
        },
{
    match split_once_exec(session, ':') {
        Some((kind, token)) => {
            let kv = chars_of(kind.as_str());
            if crate::text::vec_eq_str(&kv, "refresh_token") {
                Ok(LoginPlan::RefreshToken(token))
            } else if crate::text::vec_eq_str(&kv, "etp_rt") {
                Ok(LoginPlan::EtpRt(token))
            } else {
                Err(session_error(session))
            }
        },
        None => Err(session_error(session)),
    }
}

/// The login the command line asks for (see [`login_plan_of`]); `stored` is the content of the
/// stored session, if there is one.
pub fn login_plan(root: &LoginMethod, login: &Option<LoginMethod>, stored: &Option<String>) -> (r: Result<
    LoginPlan,
    String,
>)
    ensures
        match r {
            Ok(p) => login_plan_of(*root, *login, match stored {
                Some(s) => Some(s@),
                None => None,
            }) == Ok::<LoginPlanView, Seq<char>>(p@),
            Err(e) => login_plan_of(*root, *login, match stored {
                Some(s) => Some(s@),
                None => None,
            }) == Err::<LoginPlanView, Seq<char>>(e@),
        },
{
    let a = method_count_exec(root);
    let b = match login {
        Some(l) => method_count_exec(l),
        None => 0,
    };
    if a == 0 && b == 0 {
        return match stored {
            Some(session) => stored_session_login(session.as_str()),
            None => Err(String::from_str("Please use a login method ('--credentials', '--etp-rt' or '--anonymous')")),
        };
    }
    if a + b > 1 {
        return Err(String::from_str("Please use only one login method ('--credentials', '--etp-rt' or '--anonymous')"));
    }
    let m = match login {
        Some(l) => if b > 0 { l } else { root },
        None => root,
    };
    match &m.credentials {
        Some(c) => match split_once_exec(c.as_str(), ':') {
            Some((user, password)) => Ok(LoginPlan::Credentials { user, password }),
            None => Err(String::from_str("Invalid credentials format. Please provide your credentials as user:password")),
        },
        None => match &m.etp_rt {
            Some(t) => Ok(LoginPlan::EtpRt(t.clone())),
            None => Ok(LoginPlan::Anonymous),
        },
    }
}

/// What the service reports of the current session's login.
pub enum SessionToken {
    RefreshToken(String),
    EtpRt(String),
    Anonymous,
}

/// What the `login` command stores of a session: its refresh token; other logins cannot be
/// stored.
pub open spec fn session_content(t: SessionToken) -> Result<Seq<char>, Seq<char>> {
    match t {
        SessionToken::RefreshToken(token) => Ok("refresh_token:"@ + token@),
        SessionToken::EtpRt(_) => Err("Login with etp_rt isn't supported anymore. Please use your credentials to login"@),
        SessionToken::Anonymous => Err("Anonymous login cannot be saved"@),
    }
}

impl Login {
    /// The content of the session file that the `login` command writes (see
    /// [`session_content`]).
    pub fn session_file_content(token: &SessionToken) -> (r: Result<String, String>)
        ensures
            match r {
                Ok(s) => session_content(*token) == Ok::<Seq<char>, Seq<char>>(s@),
                Err(e) => session_content(*token) == Err::<Seq<char>, Seq<char>>(e@),
            },
    {
        match token {
            SessionToken::RefreshToken(t) => {
                let mut s = String::from_str("refresh_token:");
                s.append(t.as_str());
                Ok(s)
            },
            SessionToken::EtpRt(_) => Err(
                String::from_str("Login with etp_rt isn't supported anymore. Please use your credentials to login"),
            ),
            SessionToken::Anonymous => Err(String::from_str("Anonymous login cannot be saved")),
        }
    }
}

/// The languages in which the service can answer, in the order in which they are listed.
pub open spec fn supported_languages() -> Seq<LocaleView> {
    seq![
        LocaleView::Custom("ar-ME"@),
        LocaleView::Known(2),
        LocaleView::Known(4),
        LocaleView::Known(6),
        LocaleView::Known(5),
        LocaleView::Known(7),
        LocaleView::Known(10),
        LocaleView::Known(15),
        LocaleView::Known(16),
        LocaleView::Known(17),
    ]
}

/// One entry of the list of supported languages: `` `<tag>` (<name>) ``.
pub open spec fn language_entry(l: LocaleView) -> Seq<char> {
    "`"@ + tag(l) + "` ("@ + human_name(l) + ")"@
}

/// The entries of the languages, separated by `, `.
pub open spec fn language_list(s: Seq<LocaleView>) -> Seq<char>
    decreases s.len(),
{
    if s.len() == 0 {
        Seq::empty()
    } else if s.len() == 1 {
        language_entry(s[0])
    } else {
        language_list(s.drop_last()) + ", "@ + language_entry(s.last())
    }
}

/// The language of the session: the one asked for, which must be supported, else the system's
/// if it is supported, else American English (and then `true`, which asks for a warning).
pub open spec fn session_language_of(lang: Option<LocaleView>, system: LocaleView) -> Result<(LocaleView, bool), Seq<char>> {
    match lang {
        Some(l) => if supported_languages().contains(l) {
            Ok((l, false))
        } else {
            Err("Via `--lang` specified language is not supported. Supported languages: "@ + language_list(
                supported_languages(),
            ))
        },
        None => if supported_languages().contains(system) {
            Ok((system, false))
        } else {
            Ok((LocaleView::Known(4), true))
        },
    }
}

fn supported_languages_exec() -> (r: Vec<Locale>)
    ensures
        views(r@) == supported_languages(),
{
    let r = vec![
        Locale::Custom(String::from_str("ar-ME")),
        Locale::de_DE,
        Locale::en_US,
        Locale::es_ES,
        Locale::es_419,
        Locale::fr_FR,
        Locale::it_IT,
        Locale::pt_BR,
        Locale::pt_PT,
        Locale::ru_RU,
    ];
    assert(views(r@) =~= supported_languages());
    r
}

/// The session's language (see [`session_language_of`]).
pub fn session_language(lang: &Option<Locale>, system: &Locale) -> (r: Result<(Locale, bool), String>)
    ensures
        match r {
            Ok((l, warn)) => session_language_of(
                match lang {
                    Some(x) => Some(x@),
                    None => None,
                },
                system@,
            ) == Ok::<(LocaleView, bool), Seq<char>>((l@, warn)),
            Err(e) => session_language_of(
                match lang {
                    Some(x) => Some(x@),
                    None => None,
                },
                system@,
            ) == Err::<(LocaleView, bool), Seq<char>>(e@),
        },
{
    let supported = supported_languages_exec();
    match lang {
        Some(l) => {
            if crate::locale::contains_locale(&supported, l) {
                Ok((l.copy(), false))
            } else {
                let mut e = String::from_str("Via `--lang` specified language is not supported. Supported languages: ");
                let list = language_list_exec(&supported);
                e.append(list.as_str());
                Err(e)
            }
        },
        None => {
            if crate::locale::contains_locale(&supported, system) {
                Ok((system.copy(), false))
            } else {
                Ok((Locale::en_US, true))
            }
        },
    }
}

fn language_list_exec(v: &Vec<Locale>) -> (r: String)
    ensures
        r@ == language_list(views(v@)),
{
    let mut s = String::new();
    let mut i: usize = 0;
    while i < v.len()
        invariant
            i <= v@.len(),
            s@ == language_list(views(v@).subrange(0, i as int)),
        decreases v@.len() - i,
    {
        let ghost before = s@;
        if i > 0 {
            s.append(", ");
        }
        s.append("`");
        let t = v[i].to_tag();
        s.append(t.as_str());
        s.append("` (");
        let h = v[i].to_human_readable();
        s.append(h.as_str());
        s.append(")");
        proof {
            let p = views(v@).subrange(0, i + 1);
            assert(p.drop_last() =~= views(v@).subrange(0, i as int));
            assert(p.last() == v@[i as int]@);
            if i == 0 {
                assert(s@ =~= language_entry(p[0]));
            } else {
                assert(s@ =~= before + ", "@ + language_entry(p.last()));
            }
        }
        i = i + 1;
    }
    assert(views(v@).subrange(0, v@.len() as int) =~= views(v@));
    s
}

proof fn lemma_first_index_none(s: Seq<char>, c: char)
    requires
        forall|j: int| 0 <= j < s.len() ==> s[j] != c,
    ensures
        first_index_of(s, c) is None,
    decreases s.len(),
{
    if s.len() > 0 {
        lemma_first_index_none(s.drop_last(), c);
    }
}

/// The first index of `c` is the position of its first occurrence.
proof fn lemma_first_index(s: Seq<char>, c: char, i: int)
    requires
        0 <= i < s.len(),
        s[i] == c,
        forall|j: int| 0 <= j < i ==> s[j] != c,
    ensures
        first_index_of(s, c) == Some(i as nat),
    decreases s.len(),
{
    if i == s.len() - 1 {
        lemma_first_index_none(s.drop_last(), c);
    } else {
        lemma_first_index(s.drop_last(), c, i);
    }
}

/// What the `login` command stores, a later session reads back: with no login option given,
/// the stored refresh token is the login, whatever characters the token holds.
pub proof fn lemma_stored_session_read_back(token: String, root: LoginMethod)
    requires
        method_count(root) == 0,
    ensures
        session_content(SessionToken::RefreshToken(token)) matches Ok(content) && stored_login(content)
            == Ok::<LoginPlanView, Seq<char>>(LoginPlanView::RefreshToken(token@)) && login_plan_of(root, None, Some(content))
            == Ok::<LoginPlanView, Seq<char>>(LoginPlanView::RefreshToken(token@)),
{
    reveal_strlit("refresh_token:");
    reveal_strlit("refresh_token");
    let content = "refresh_token:"@ + token@;
    assert(content[13] == ':');
    assert forall|j: int| 0 <= j < 13 implies content[j] != ':' by {
        assert(content[j] == "refresh_token:"@[j]);
    }
    lemma_first_index(content, ':', 13);
    assert(content.subrange(0, 13) =~= "refresh_token"@);
    assert(content.subrange(14, content.len() as int) =~= token@);
}

} // verus!
