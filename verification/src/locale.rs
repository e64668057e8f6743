//! Locales of the streaming service's audio and subtitle tracks, and how they are tagged.
use vstd::prelude::*;
use crate::text::{chars_eq, chars_of, lower, lower_vec, trim, trim_vec, vec_eq_str};

verus! {

broadcast use vstd::string::group_string_axioms;

/// A language of an audio or subtitle track. The named variants are the languages the service
/// knows; any other tag is kept verbatim in `Custom`.
#[derive(Clone, Debug)]
pub enum Locale {
    ar_SA,
    ca_ES,
    de_DE,
    en_IN,
    en_US,
    es_419,
    es_ES,
    fr_FR,
    hi_IN,
    id_ID,
    it_IT,
    ja_JP,
    ko_KR,
    ms_MY,
    pl_PL,
    pt_BR,
    pt_PT,
    ru_RU,
    ta_IN,
    te_IN,
    th_TH,
    tl_PH,
    tr_TR,
    vi_VN,
    zh_CN,
    zh_HK,
    zh_TW,
    Custom(String),
}

/// The mathematical value of a [`Locale`]: the position of a known language in the list of
/// known languages, or the text of a custom tag.
pub enum LocaleView {
    Known(nat),
    Custom(Seq<char>),
}

/// Number of known languages.
pub open spec fn known_count() -> nat {
    27
}

/// Position of a known language (`-1` for a custom one).
pub open spec fn known_index(l: Locale) -> int {
    match l {
        Locale::ar_SA => 0,
        Locale::ca_ES => 1,
        Locale::de_DE => 2,
        Locale::en_IN => 3,
        Locale::en_US => 4,
        Locale::es_419 => 5,
        Locale::es_ES => 6,
        Locale::fr_FR => 7,
        Locale::hi_IN => 8,
        Locale::id_ID => 9,
        Locale::it_IT => 10,
        Locale::ja_JP => 11,
        Locale::ko_KR => 12,
        Locale::ms_MY => 13,
        Locale::pl_PL => 14,
        Locale::pt_BR => 15,
        Locale::pt_PT => 16,
        Locale::ru_RU => 17,
        Locale::ta_IN => 18,
        Locale::te_IN => 19,
        Locale::th_TH => 20,
        Locale::tl_PH => 21,
        Locale::tr_TR => 22,
        Locale::vi_VN => 23,
        Locale::zh_CN => 24,
        Locale::zh_HK => 25,
        Locale::zh_TW => 26,
        Locale::Custom(_) => -1,
    }
}

/// The tag of the known language at position `i`.
pub open spec fn known_tag(i: nat) -> Seq<char> {
    seq![
        "ar-SA"@,
        "ca-ES"@,
        "de-DE"@,
        "en-IN"@,
        "en-US"@,
        "es-419"@,
        "es-ES"@,
        "fr-FR"@,
        "hi-IN"@,
        "id-ID"@,
        "it-IT"@,
        "ja-JP"@,
        "ko-KR"@,
        "ms-MY"@,
        "pl-PL"@,
        "pt-BR"@,
        "pt-PT"@,
        "ru-RU"@,
        "ta-IN"@,
        "te-IN"@,
        "th-TH"@,
        "tl-PH"@,
        "tr-TR"@,
        "vi-VN"@,
        "zh-CN"@,
        "zh-HK"@,
        "zh-TW"@,
    ][i as int]
}

/// The English name of the known language at position `i`.
pub open spec fn known_human(i: nat) -> Seq<char> {
    seq![
        "Arabic (Saudi Arabia)"@,
        "Catalan"@,
        "German"@,
        "English (India)"@,
        "English (US)"@,
        "Spanish (Latin America)"@,
        "Spanish (Spain)"@,
        "French"@,
        "Hindi"@,
        "Indonesian"@,
        "Italian"@,
        "Japanese"@,
        "Korean"@,
        "Malay"@,
        "Polish"@,
        "Portuguese (Brazil)"@,
        "Portuguese (Portugal)"@,
        "Russian"@,
        "Tamil"@,
        "Telugu"@,
        "Thai"@,
        "Filipino"@,
        "Turkish"@,
        "Vietnamese"@,
        "Chinese (China)"@,
        "Chinese (Cantonese)"@,
        "Chinese (Mandarin)"@,
    ][i as int]
}

impl View for Locale {
    type V = LocaleView;

    open spec fn view(&self) -> LocaleView {
        match self {
            Locale::Custom(s) => LocaleView::Custom(s@),
            _ => LocaleView::Known(known_index(*self) as nat),
        }
    }
}

/// The textual tag of a locale (what `to_string` gives, e.g. `ja-JP`).
pub open spec fn tag(l: LocaleView) -> Seq<char> {
    match l {
        LocaleView::Known(i) => known_tag(i),
        LocaleView::Custom(s) => s,
    }
}

/// The English name of a locale (a custom locale is named by its tag).
pub open spec fn human_name(l: LocaleView) -> Seq<char> {
    match l {
        LocaleView::Known(i) => known_human(i),
        LocaleView::Custom(s) => s,
    }
}

/// The views of a sequence of locales.
pub open spec fn views(s: Seq<Locale>) -> Seq<LocaleView> {
    s.map_values(|l: Locale| l@)
}

/// The locale a tag reads as: the first known language whose tag equals it up to ASCII case,
/// else the tag itself as a custom locale.
pub open spec fn locale_from_tag(s: Seq<char>) -> LocaleView {
    locale_from_tag_from(s, 0)
}

/// Like [`locale_from_tag`], searching the known languages from position `i` on.
pub open spec fn locale_from_tag_from(s: Seq<char>, i: nat) -> LocaleView
    decreases known_count() - i,
{
    if i >= known_count() {
        LocaleView::Custom(s)
    } else if lower(s) == lower(known_tag(i)) {
        LocaleView::Known(i)
    } else {
        locale_from_tag_from(s, i + 1)
    }
}

fn known_tag_str(i: usize) -> (r: &'static str)
    requires
        i < known_count(),
    ensures
        r@ == known_tag(i as nat),
{
    match i {
        0 => "ar-SA",
        1 => "ca-ES",
        2 => "de-DE",
        3 => "en-IN",
        4 => "en-US",
        5 => "es-419",
        6 => "es-ES",
        7 => "fr-FR",
        8 => "hi-IN",
        9 => "id-ID",
        10 => "it-IT",
        11 => "ja-JP",
        12 => "ko-KR",
        13 => "ms-MY",
        14 => "pl-PL",
        15 => "pt-BR",
        16 => "pt-PT",
        17 => "ru-RU",
        18 => "ta-IN",
        19 => "te-IN",
        20 => "th-TH",
        21 => "tl-PH",
        22 => "tr-TR",
        23 => "vi-VN",
        24 => "zh-CN",
        25 => "zh-HK",
        26 => "zh-TW",
        _ => "zh-TW",
    }
}

fn known_human_str(i: usize) -> (r: &'static str)
    requires
        i < known_count(),
    ensures
        r@ == known_human(i as nat),
{
    match i {
        0 => "Arabic (Saudi Arabia)",
        1 => "Catalan",
        2 => "German",
        3 => "English (India)",
        4 => "English (US)",
        5 => "Spanish (Latin America)",
        6 => "Spanish (Spain)",
        7 => "French",
        8 => "Hindi",
        9 => "Indonesian",
        10 => "Italian",
        11 => "Japanese",
        12 => "Korean",
        13 => "Malay",
        14 => "Polish",
        15 => "Portuguese (Brazil)",
        16 => "Portuguese (Portugal)",
        17 => "Russian",
        18 => "Tamil",
        19 => "Telugu",
        20 => "Thai",
        21 => "Filipino",
        22 => "Turkish",
        23 => "Vietnamese",
        24 => "Chinese (China)",
        25 => "Chinese (Cantonese)",
        26 => "Chinese (Mandarin)",
        _ => "Chinese (Mandarin)",
    }
}

fn known_from_index(i: usize) -> (r: Locale)
    requires
        i < known_count(),
    ensures
        r@ == LocaleView::Known(i as nat),
{
    match i {
        0 => Locale::ar_SA,
        1 => Locale::ca_ES,
        2 => Locale::de_DE,
        3 => Locale::en_IN,
        4 => Locale::en_US,
        5 => Locale::es_419,
        6 => Locale::es_ES,
        7 => Locale::fr_FR,
        8 => Locale::hi_IN,
        9 => Locale::id_ID,
        10 => Locale::it_IT,
        11 => Locale::ja_JP,
        12 => Locale::ko_KR,
        13 => Locale::ms_MY,
        14 => Locale::pl_PL,
        15 => Locale::pt_BR,
        16 => Locale::pt_PT,
        17 => Locale::ru_RU,
        18 => Locale::ta_IN,
        19 => Locale::te_IN,
        20 => Locale::th_TH,
        21 => Locale::tl_PH,
        22 => Locale::tr_TR,
        23 => Locale::vi_VN,
        24 => Locale::zh_CN,
        25 => Locale::zh_HK,
        26 => Locale::zh_TW,
        _ => Locale::zh_TW,
    }
}

impl Locale {
    fn known_index_exec(&self) -> (r: Option<usize>)
        ensures
            match r {
                Some(i) => self@ == LocaleView::Known(i as nat) && i < known_count(),
                None => self@ is Custom,
            },
    {
        match self {
            Locale::ar_SA => Some(0),
            Locale::ca_ES => Some(1),
            Locale::de_DE => Some(2),
            Locale::en_IN => Some(3),
            Locale::en_US => Some(4),
            Locale::es_419 => Some(5),
            Locale::es_ES => Some(6),
            Locale::fr_FR => Some(7),
            Locale::hi_IN => Some(8),
            Locale::id_ID => Some(9),
            Locale::it_IT => Some(10),
            Locale::ja_JP => Some(11),
            Locale::ko_KR => Some(12),
            Locale::ms_MY => Some(13),
            Locale::pl_PL => Some(14),
            Locale::pt_BR => Some(15),
            Locale::pt_PT => Some(16),
            Locale::ru_RU => Some(17),
            Locale::ta_IN => Some(18),
            Locale::te_IN => Some(19),
            Locale::th_TH => Some(20),
            Locale::tl_PH => Some(21),
            Locale::tr_TR => Some(22),
            Locale::vi_VN => Some(23),
            Locale::zh_CN => Some(24),
            Locale::zh_HK => Some(25),
            Locale::zh_TW => Some(26),
            Locale::Custom(_) => None,
        }
    }

    /// A copy of this locale.
    pub fn copy(&self) -> (r: Locale)
        ensures
            r@ == self@,
    {
        match self.known_index_exec() {
            Some(i) => known_from_index(i),
            None => match self {
                Locale::Custom(s) => Locale::Custom(s.clone()),
                _ => Locale::Custom(String::new()),
            },
        }
    }

    /// Whether two locales are the same language.
    pub fn same(&self, other: &Locale) -> (r: bool)
        ensures
            r == (self@ == other@),
    {
        let a = self.known_index_exec();
        let b = other.known_index_exec();
        if let Some(i) = a {
            if let Some(j) = b {
                return i == j;
            }
            return false;
        }
        if b.is_some() {
            return false;
        }
        if let Locale::Custom(x) = self {
            if let Locale::Custom(y) = other {
                return x.eq(y);
            }
        }
        false
    }

    /// The tag of this locale, e.g. `ja-JP`.
    pub fn to_tag(&self) -> (r: String)
        ensures
            r@ == tag(self@),
    {
        match self.known_index_exec() {
            Some(i) => String::from_str(known_tag_str(i)),
            None => match self {
                Locale::Custom(s) => s.clone(),
                _ => String::new(),
            },
        }
    }

    /// An English name of this locale (a custom locale is named by its tag).
    pub fn to_human_readable(&self) -> (r: String)
        ensures
            r@ == human_name(self@),
    {
        match self.known_index_exec() {
            Some(i) => String::from_str(known_human_str(i)),
            None => match self {
                Locale::Custom(s) => s.clone(),
                _ => String::new(),
            },
        }
    }

    /// Reads a tag: a known language if the tag matches one up to ASCII case, else a custom
    /// locale holding the tag verbatim.
    pub fn from_tag(s: &str) -> (r: Locale)
        ensures
            r@ == locale_from_tag(s@),
    {
        let chars = chars_of(s);
        let low = lower_vec(&chars);
        let mut i: usize = 0;
        while i < 27
            invariant
                i <= known_count(),
                low@ == lower(s@),
                locale_from_tag(s@) == locale_from_tag_from(s@, i as nat),
            decreases 27 - i,
        {
            let t = chars_of(known_tag_str(i));
            let tl = lower_vec(&t);
            if chars_eq(&low, &tl) {
                return known_from_index(i);
            }
            i = i + 1;
        }
        Locale::Custom(String::from_str(s))
    }
}

/// The list of all languages, in the order in which the service's client library gives it
/// (which lists Chinese (China) twice and leaves out Chinese (Cantonese)).
pub open spec fn all_locales() -> Seq<LocaleView> {
    Seq::new(27, |i: int| if i == 25 { LocaleView::Known(24) } else { LocaleView::Known(i as nat) })
}

impl Locale {
    /// All languages (see [`all_locales`]).
    pub fn all() -> (r: Vec<Locale>)
        ensures
            views(r@) == all_locales(),
    {
        let mut r: Vec<Locale> = Vec::new();
        let mut i: usize = 0;
        while i < 27
            invariant
                i <= 27,
                views(r@) == all_locales().subrange(0, i as int),
            decreases 27 - i,
        {
            let j = if i == 25 { 24 } else { i };
            let l = known_from_index(j);
            proof { lemma_views_push(r@, l); }
            r.push(l);
            i = i + 1;
            assert(views(r@) =~= all_locales().subrange(0, i as int));
        }
        assert(all_locales().subrange(0, 27) =~= all_locales());
        r
    }
}

/// The views of a sequence grow by one view when the sequence grows by one locale.
pub proof fn lemma_views_push(s: Seq<Locale>, l: Locale)
    ensures
        views(s.push(l)) == views(s).push(l@),
{
    assert(views(s.push(l)) =~= views(s).push(l@)) by {
        assert forall|k: int| 0 <= k < s.len() + 1 implies views(s.push(l))[k] == views(s).push(l@)[k] by {
            if k < s.len() {
                assert(s.push(l)[k] == s[k]);
            }
        }
    }
}

/// Whether `l` is in the list `v`.
pub fn contains_locale(v: &Vec<Locale>, l: &Locale) -> (r: bool)
    ensures
        r == views(v@).contains(l@),
{
    let mut i: usize = 0;
    while i < v.len()
        invariant
            i <= v.len(),
            forall|j: int| 0 <= j < i ==> v@[j]@ != l@,
        decreases v.len() - i,
    {
        if v[i].same(l) {
            assert(views(v@)[i as int] == l@);
            return true;
        }
        i = i + 1;
    }
    assert(!views(v@).contains(l@)) by {
        if views(v@).contains(l@) {
            let j = choose|j: int| 0 <= j < views(v@).len() && views(v@)[j] == l@;
            assert(v@[j]@ == l@);
        }
    }
    false
}

/// How language tags are written into output files and names.
#[derive(Clone, Copy, Debug, PartialEq, Eq, Structural)]
pub enum LanguageTagging {
    /// The tags as the service uses them internally (e.g. `ja-JP`).
    Default,
    /// IETF language codes (e.g. `ja`).
    IETF,
}

/// The IETF language codes and the locales each one stands for, the first being the preferred one.
pub open spec fn ietf_table() -> Seq<(Seq<char>, Seq<LocaleView>)> {
    seq![
        ("ar"@, seq![LocaleView::Custom("ar-ME"@), LocaleView::Known(0)]),
        ("ca"@, seq![LocaleView::Known(1)]),
        ("de"@, seq![LocaleView::Known(2)]),
        ("en"@, seq![LocaleView::Known(4)]),
        ("es"@, seq![LocaleView::Known(6), LocaleView::Known(5), LocaleView::Custom("es-LA"@)]),
        ("fr"@, seq![LocaleView::Known(7)]),
        ("hi"@, seq![LocaleView::Known(8)]),
        ("id"@, seq![LocaleView::Known(9)]),
        ("it"@, seq![LocaleView::Known(10)]),
        ("ja"@, seq![LocaleView::Known(11)]),
        ("ko"@, seq![LocaleView::Known(12)]),
        ("ms"@, seq![LocaleView::Known(13)]),
        ("pl"@, seq![LocaleView::Known(14)]),
        ("pt"@, seq![LocaleView::Known(16), LocaleView::Known(15)]),
        ("ru"@, seq![LocaleView::Known(17)]),
        ("ta"@, seq![LocaleView::Known(18)]),
        ("te"@, seq![LocaleView::Known(19)]),
        ("th"@, seq![LocaleView::Known(20)]),
        ("tr"@, seq![LocaleView::Known(22)]),
        ("vi"@, seq![LocaleView::Known(23)]),
        ("zh"@, seq![LocaleView::Known(24), LocaleView::Known(25), LocaleView::Known(26)]),
    ]
}

/// The first entry of the IETF table from position `e` on whose locales include `l`.
pub open spec fn ietf_entry_of_from(l: LocaleView, e: nat) -> Option<nat>
    decreases ietf_table().len() - e,
{
    if e >= ietf_table().len() {
        None
    } else if ietf_table()[e as int].1.contains(l) {
        Some(e)
    } else {
        ietf_entry_of_from(l, e + 1)
    }
}

/// The first entry of the IETF table whose locales include `l`.
pub open spec fn ietf_entry_of(l: LocaleView) -> Option<nat> {
    ietf_entry_of_from(l, 0)
}

/// The first entry of the IETF table from position `e` on whose code is `code`.
pub open spec fn ietf_entry_named_from(code: Seq<char>, e: nat) -> Option<nat>
    decreases ietf_table().len() - e,
{
    if e >= ietf_table().len() {
        None
    } else if ietf_table()[e as int].0 == code {
        Some(e)
    } else {
        ietf_entry_named_from(code, e + 1)
    }
}

/// The first entry of the IETF table whose code is `code`.
pub open spec fn ietf_entry_named(code: Seq<char>) -> Option<nat> {
    ietf_entry_named_from(code, 0)
}

/// The tag under which `l` is written with the given tagging: with the default tagging its own
/// tag, as the service uses it (`es-419`, `pt-BR`, `hi-IN`); with IETF tagging the code of its
/// IETF entry, and its own tag where it is in no entry.
pub open spec fn tag_for(tagging: LanguageTagging, l: LocaleView) -> Seq<char> {
    match tagging {
        LanguageTagging::Default => tag(l),
        LanguageTagging::IETF => match ietf_entry_of(l) {
            Some(e) => ietf_table()[e as int].0,
            None => tag(l),
        },
    }
}

/// What a requested locale resolves to: itself if it is a known language, else the preferred locale
/// of the IETF entry whose code equals its tag, else itself.
pub open spec fn resolved(l: LocaleView) -> LocaleView {
    if all_locales().contains(l) {
        l
    } else {
        match ietf_entry_named(tag(l)) {
            Some(e) => ietf_table()[e as int].1[0],
            None => l,
        }
    }
}

/// Whether a locale stands for "all languages": its tag, lowercased and trimmed, is `all`.
pub open spec fn is_all(l: LocaleView) -> bool {
    trim(lower(tag(l))) == "all"@
}

/// The error message for an unknown language tagging.
pub open spec fn tagging_error(s: Seq<char>) -> Seq<char> {
    "'"@ + s + "' is not a valid language tagging"@
}

fn ietf_row(code: &'static str, locales: Vec<Locale>) -> (r: (&'static str, Vec<Locale>))
    ensures
        r.0@ == code@,
        views(r.1@) == views(locales@),
{
    (code, locales)
}

/// The IETF table as values.
fn ietf_language_codes() -> (r: Vec<(&'static str, Vec<Locale>)>)
    ensures
        r@.len() == ietf_table().len(),
        forall|e: int| 0 <= e < r@.len() ==> (#[trigger] r@[e]).0@ == ietf_table()[e].0 && views(r@[e].1@) == ietf_table()[e].1,
{
    let mut t: Vec<(&'static str, Vec<Locale>)> = Vec::new();
    t.push(ietf_row("ar", vec![Locale::Custom(String::from_str("ar-ME")), Locale::ar_SA]));
    t.push(ietf_row("ca", vec![Locale::ca_ES]));
    t.push(ietf_row("de", vec![Locale::de_DE]));
    t.push(ietf_row("en", vec![Locale::en_US]));
    t.push(ietf_row("es", vec![Locale::es_ES, Locale::es_419, Locale::Custom(String::from_str("es-LA"))]));
    t.push(ietf_row("fr", vec![Locale::fr_FR]));
    t.push(ietf_row("hi", vec![Locale::hi_IN]));
    t.push(ietf_row("id", vec![Locale::id_ID]));
    t.push(ietf_row("it", vec![Locale::it_IT]));
    t.push(ietf_row("ja", vec![Locale::ja_JP]));
    t.push(ietf_row("ko", vec![Locale::ko_KR]));
    t.push(ietf_row("ms", vec![Locale::ms_MY]));
    t.push(ietf_row("pl", vec![Locale::pl_PL]));
    t.push(ietf_row("pt", vec![Locale::pt_PT, Locale::pt_BR]));
    t.push(ietf_row("ru", vec![Locale::ru_RU]));
    t.push(ietf_row("ta", vec![Locale::ta_IN]));
    t.push(ietf_row("te", vec![Locale::te_IN]));
    t.push(ietf_row("th", vec![Locale::th_TH]));
    t.push(ietf_row("tr", vec![Locale::tr_TR]));
    t.push(ietf_row("vi", vec![Locale::vi_VN]));
    t.push(ietf_row("zh", vec![Locale::zh_CN, Locale::zh_HK, Locale::zh_TW]));
    assert(views(t@[0].1@) =~= ietf_table()[0].1);
    assert(views(t@[1].1@) =~= ietf_table()[1].1);
    assert(views(t@[2].1@) =~= ietf_table()[2].1);
    assert(views(t@[3].1@) =~= ietf_table()[3].1);
    assert(views(t@[4].1@) =~= ietf_table()[4].1);
    assert(views(t@[5].1@) =~= ietf_table()[5].1);
    assert(views(t@[6].1@) =~= ietf_table()[6].1);
    assert(views(t@[7].1@) =~= ietf_table()[7].1);
    assert(views(t@[8].1@) =~= ietf_table()[8].1);
    assert(views(t@[9].1@) =~= ietf_table()[9].1);
    assert(views(t@[10].1@) =~= ietf_table()[10].1);
    assert(views(t@[11].1@) =~= ietf_table()[11].1);
    assert(views(t@[12].1@) =~= ietf_table()[12].1);
    assert(views(t@[13].1@) =~= ietf_table()[13].1);
    assert(views(t@[14].1@) =~= ietf_table()[14].1);
    assert(views(t@[15].1@) =~= ietf_table()[15].1);
    assert(views(t@[16].1@) =~= ietf_table()[16].1);
    assert(views(t@[17].1@) =~= ietf_table()[17].1);
    assert(views(t@[18].1@) =~= ietf_table()[18].1);
    assert(views(t@[19].1@) =~= ietf_table()[19].1);
    assert(views(t@[20].1@) =~= ietf_table()[20].1);
    t
}

/// The position of the IETF entry whose locales include `l`, if any.
fn find_entry_of(table: &Vec<(&'static str, Vec<Locale>)>, l: &Locale) -> (r: Option<usize>)
    requires
        table@.len() == ietf_table().len(),
        forall|e: int| 0 <= e < table@.len() ==> (#[trigger] table@[e]).0@ == ietf_table()[e].0 && views(table@[e].1@) == ietf_table()[e].1,
    ensures
        match r {
            Some(e) => ietf_entry_of(l@) == Some(e as nat) && e < table@.len(),
            None => ietf_entry_of(l@) is None,
        },
{
    let mut e: usize = 0;
    while e < table.len()
        invariant
            e <= table@.len(),
            table@.len() == ietf_table().len(),
            forall|k: int| 0 <= k < table@.len() ==> (#[trigger] table@[k]).0@ == ietf_table()[k].0 && views(table@[k].1@) == ietf_table()[k].1,
            ietf_entry_of(l@) == ietf_entry_of_from(l@, e as nat),
        decreases table@.len() - e,
    {
        if contains_locale(&table[e].1, l) {
            return Some(e);
        }
        e = e + 1;
    }
    None
}

impl LanguageTagging {
    /// Reads a language tagging name, case-insensitively: `default` or `ietf`.
    pub fn parse(s: &str) -> (r: Result<LanguageTagging, String>)
        ensures
            lower(s@) == "default"@ ==> r == Ok::<LanguageTagging, String>(LanguageTagging::Default),
            lower(s@) == "ietf"@ ==> r == Ok::<LanguageTagging, String>(LanguageTagging::IETF),
            lower(s@) != "default"@ && lower(s@) != "ietf"@ ==> (r matches Err(m) && m@ == tagging_error(s@)),
    {
        proof {
            reveal_strlit("default");
            reveal_strlit("ietf");
            assert("ietf"@.len() == 4);
            assert("default"@.len() == 7);
        }
        let low = lower_vec(&chars_of(s));
        if vec_eq_str(&low, "default") {
            Ok(LanguageTagging::Default)
        } else if vec_eq_str(&low, "ietf") {
            Ok(LanguageTagging::IETF)
        } else {
            let mut m = String::from_str("'");
            m.append(s);
            m.append("' is not a valid language tagging");
            Err(m)
        }
    }

    /// The tags under which the given locales are written, one per locale.
    pub fn convert_locales(&self, locales: &Vec<Locale>) -> (r: Vec<String>)
        ensures
            r@.len() == locales@.len(),
            forall|i: int| 0 <= i < locales@.len() ==> (#[trigger] r@[i])@ == tag_for(*self, locales@[i]@),
    {
        let table = ietf_language_codes();
        let mut r: Vec<String> = Vec::new();
        let mut i: usize = 0;
        while i < locales.len()
            invariant
                i <= locales@.len(),
                r@.len() == i,
                table@.len() == ietf_table().len(),
                forall|e: int| 0 <= e < table@.len() ==> (#[trigger] table@[e]).0@ == ietf_table()[e].0 && views(table@[e].1@) == ietf_table()[e].1,
                forall|k: int| 0 <= k < i ==> (#[trigger] r@[k])@ == tag_for(*self, locales@[k]@),
            decreases locales@.len() - i,
        {
            let t = self.tag_in(&table, &locales[i]);
            r.push(t);
            i = i + 1;
        }
        r
    }

    fn tag_in(&self, table: &Vec<(&'static str, Vec<Locale>)>, l: &Locale) -> (r: String)
        requires
            table@.len() == ietf_table().len(),
            forall|e: int| 0 <= e < table@.len() ==> (#[trigger] table@[e]).0@ == ietf_table()[e].0 && views(table@[e].1@) == ietf_table()[e].1,
        ensures
            r@ == tag_for(*self, l@),
    {
        match self {
            LanguageTagging::Default => l.to_tag(),
            LanguageTagging::IETF => match find_entry_of(table, l) {
                Some(e) => String::from_str(table[e].0),
                None => l.to_tag(),
            },
        }
    }

    /// The tag under which one locale is written.
    pub fn for_locale(&self, locale: &Locale) -> (r: String)
        ensures
            r@ == tag_for(*self, locale@),
    {
        let table = ietf_language_codes();
        self.tag_in(&table, locale)
    }
}

/// The position of the IETF entry whose code is `t`, if any.
fn find_entry_named(table: &Vec<(&'static str, Vec<Locale>)>, t: &Vec<char>) -> (r: Option<usize>)
    requires
        table@.len() == ietf_table().len(),
        forall|e: int| 0 <= e < table@.len() ==> (#[trigger] table@[e]).0@ == ietf_table()[e].0 && views(table@[e].1@) == ietf_table()[e].1,
    ensures
        match r {
            Some(e) => ietf_entry_named(t@) == Some(e as nat) && e < table@.len(),
            None => ietf_entry_named(t@) is None,
        },
{
    let mut e: usize = 0;
    while e < table.len()
        invariant
            e <= table@.len(),
            table@.len() == ietf_table().len(),
            forall|k: int| 0 <= k < table@.len() ==> (#[trigger] table@[k]).0@ == ietf_table()[k].0 && views(table@[k].1@) == ietf_table()[k].1,
            ietf_entry_named(t@) == ietf_entry_named_from(t@, e as nat),
        decreases table@.len() - e,
    {
        if vec_eq_str(t, table[e].0) {
            return Some(e);
        }
        e = e + 1;
    }
    None
}

/// Resolves requested locales: known languages stay, an IETF code becomes the preferred locale of
/// its entry, anything else stays as it is.
pub fn resolve_locales(locales: &Vec<Locale>) -> (r: Vec<Locale>)
    ensures
        r@.len() == locales@.len(),
        forall|i: int| 0 <= i < locales@.len() ==> (#[trigger] r@[i])@ == resolved(locales@[i]@),
{
    let table = ietf_language_codes();
    let all = Locale::all();
    let mut r: Vec<Locale> = Vec::new();
    let mut i: usize = 0;
    while i < locales.len()
        invariant
            i <= locales@.len(),
            r@.len() == i,
            views(all@) == all_locales(),
            table@.len() == ietf_table().len(),
            forall|e: int| 0 <= e < table@.len() ==> (#[trigger] table@[e]).0@ == ietf_table()[e].0 && views(table@[e].1@) == ietf_table()[e].1,
            forall|k: int| 0 <= k < i ==> (#[trigger] r@[k])@ == resolved(locales@[k]@),
        decreases locales@.len() - i,
    {
        let l = &locales[i];
        if contains_locale(&all, l) {
            r.push(l.copy());
        } else {
            let t = chars_of(l.to_tag().as_str());
            let found = find_entry_named(&table, &t);
            match found {
                Some(f) => {
                    assert(ietf_table()[f as int].1.len() > 0);
                    assert(table@[f as int].1@[0]@ == ietf_table()[f as int].1[0]);
                    r.push(table[f].1[0].copy());
                },
                None => r.push(l.copy()),
            }
        }
        i = i + 1;
    }
    r
}

/// If one of the locales stands for all languages (see [`is_all`]), all languages; else the
/// locales as given.
pub fn all_locale_in_locales(locales: Vec<Locale>) -> (r: Vec<Locale>)
    ensures
        (exists|i: int| 0 <= i < locales@.len() && is_all(#[trigger] locales@[i]@)) ==> views(r@) == all_locales(),
        !(exists|i: int| 0 <= i < locales@.len() && is_all(#[trigger] locales@[i]@)) ==> r@ == locales@,
{
    let mut i: usize = 0;
    while i < locales.len()
        invariant
            i <= locales@.len(),
            forall|k: int| 0 <= k < i ==> !is_all(#[trigger] locales@[k]@),
        decreases locales@.len() - i,
    {
        let t = trim_vec(&lower_vec(&chars_of(locales[i].to_tag().as_str())));
        if vec_eq_str(&t, "all") {
            return Locale::all();
        }
        i = i + 1;
    }
    locales
}


/// Whether `code` is the language subtag of the tag `t`: `t` is `code` followed by `-` and more.
pub open spec fn is_language_subtag(code: Seq<char>, t: Seq<char>) -> bool {
    code.len() < t.len() && t.subrange(0, code.len() as int) == code && t[code.len() as int] == '-'
}

proof fn lemma_entry_of_from(l: LocaleView, e: nat)
    ensures
        ietf_entry_of_from(l, e) matches Some(k) ==> k < ietf_table().len() && ietf_table()[k as int].1.contains(l),
    decreases ietf_table().len() - e,
{
    if e < ietf_table().len() && !ietf_table()[e as int].1.contains(l) {
        lemma_entry_of_from(l, e + 1);
    }
}

proof fn lemma_entry_named_from(code: Seq<char>, e: nat)
    ensures
        ietf_entry_named_from(code, e) matches Some(k) ==> k < ietf_table().len() && ietf_table()[k as int].0 == code,
    decreases ietf_table().len() - e,
{
    if e < ietf_table().len() && ietf_table()[e as int].0 != code {
        lemma_entry_named_from(code, e + 1);
    }
}

/// Under IETF tagging a locale is written as the language subtag of its own tag (`fr-FR` as `fr`,
/// `it-IT` as `it`, `es-419` as `es`), and as its whole tag where it has no IETF code.
pub proof fn lemma_ietf_tag_is_language_subtag(l: LocaleView)
    ensures
        ietf_entry_of(l) is Some ==> is_language_subtag(tag_for(LanguageTagging::IETF, l), tag(l)),
        ietf_entry_of(l) is None ==> tag_for(LanguageTagging::IETF, l) == tag(l),
{
    lemma_entry_of_from(l, 0);
    lemma_ietf_rows();
    if let Some(k) = ietf_entry_of(l) {
        let j = choose|j: int| 0 <= j < ietf_table()[k as int].1.len() && ietf_table()[k as int].1[j] == l;
        assert(is_language_subtag(ietf_table()[k as int].0, tag(ietf_table()[k as int].1[j])));
    }
}

/// A requested IETF code resolves to a locale of that language: where a locale that is no known
/// language is an IETF code, its tag is the language subtag of the tag it resolves to (`fr` to
/// `fr-FR`, `es` to `es-ES`).
pub proof fn lemma_ietf_code_resolves_to_its_language(l: LocaleView)
    ensures
        !all_locales().contains(l) && ietf_entry_named(tag(l)) is Some ==> is_language_subtag(tag(l), tag(resolved(l))),
{
    lemma_entry_named_from(tag(l), 0);
    lemma_ietf_rows();
    if !all_locales().contains(l) && ietf_entry_named(tag(l)) is Some {
        let k = ietf_entry_named(tag(l))->Some_0;
        assert(ietf_table()[k as int].1.len() > 0);
        assert(is_language_subtag(ietf_table()[k as int].0, tag(ietf_table()[k as int].1[0])));
    }
}

/// Every locale of the IETF table has its entry's code as the language subtag of its tag.
proof fn lemma_ietf_rows()
    ensures
        forall|k: int, j: int| 0 <= k < ietf_table().len() && 0 <= j < ietf_table()[k].1.len() ==> is_language_subtag(ietf_table()[k].0, #[trigger] tag(ietf_table()[k].1[j])),
{
    reveal_strlit("ar");
    reveal_strlit("ar-ME");
    reveal_strlit("ar-SA");
    reveal_strlit("ca");
    reveal_strlit("ca-ES");
    reveal_strlit("de");
    reveal_strlit("de-DE");
    reveal_strlit("en");
    reveal_strlit("en-US");
    reveal_strlit("es");
    reveal_strlit("es-419");
    reveal_strlit("es-ES");
    reveal_strlit("es-LA");
    reveal_strlit("fr");
    reveal_strlit("fr-FR");
    reveal_strlit("hi");
    reveal_strlit("hi-IN");
    reveal_strlit("id");
    reveal_strlit("id-ID");
    reveal_strlit("it");
    reveal_strlit("it-IT");
    reveal_strlit("ja");
    reveal_strlit("ja-JP");
    reveal_strlit("ko");
    reveal_strlit("ko-KR");
    reveal_strlit("ms");
    reveal_strlit("ms-MY");
    reveal_strlit("pl");
    reveal_strlit("pl-PL");
    reveal_strlit("pt");
    reveal_strlit("pt-BR");
    reveal_strlit("pt-PT");
    reveal_strlit("ru");
    reveal_strlit("ru-RU");
    reveal_strlit("ta");
    reveal_strlit("ta-IN");
    reveal_strlit("te");
    reveal_strlit("te-IN");
    reveal_strlit("th");
    reveal_strlit("th-TH");
    reveal_strlit("tr");
    reveal_strlit("tr-TR");
    reveal_strlit("vi");
    reveal_strlit("vi-VN");
    reveal_strlit("zh");
    reveal_strlit("zh-CN");
    reveal_strlit("zh-HK");
    reveal_strlit("zh-TW");
    let t = ietf_table();
    assert forall|k: int, j: int| 0 <= k < t.len() && 0 <= j < t[k].1.len() implies is_language_subtag(t[k].0, #[trigger] tag(t[k].1[j])) by {
        if k == 0 {
            if j == 0 {
                assert(tag(t[k].1[j]) == "ar-ME"@);
                assert("ar-ME"@.subrange(0, 2) =~= "ar"@);
            }
            if j == 1 {
                assert(tag(t[k].1[j]) == "ar-SA"@);
                assert("ar-SA"@.subrange(0, 2) =~= "ar"@);
            }
        } else if k == 1 {
            if j == 0 {
                assert(tag(t[k].1[j]) == "ca-ES"@);
                assert("ca-ES"@.subrange(0, 2) =~= "ca"@);
            }
        } else if k == 2 {
            if j == 0 {
                assert(tag(t[k].1[j]) == "de-DE"@);
                assert("de-DE"@.subrange(0, 2) =~= "de"@);
            }
        } else if k == 3 {
            if j == 0 {
                assert(tag(t[k].1[j]) == "en-US"@);
                assert("en-US"@.subrange(0, 2) =~= "en"@);
            }
        } else if k == 4 {
            if j == 0 {
                assert(tag(t[k].1[j]) == "es-ES"@);
                assert("es-ES"@.subrange(0, 2) =~= "es"@);
            }
            if j == 1 {
                assert(tag(t[k].1[j]) == "es-419"@);
                assert("es-419"@.subrange(0, 2) =~= "es"@);
            }
            if j == 2 {
                assert(tag(t[k].1[j]) == "es-LA"@);
                assert("es-LA"@.subrange(0, 2) =~= "es"@);
            }
        } else if k == 5 {
            if j == 0 {
                assert(tag(t[k].1[j]) == "fr-FR"@);
                assert("fr-FR"@.subrange(0, 2) =~= "fr"@);
            }
        } else if k == 6 {
            if j == 0 {
                assert(tag(t[k].1[j]) == "hi-IN"@);
                assert("hi-IN"@.subrange(0, 2) =~= "hi"@);
            }
        } else if k == 7 {
            if j == 0 {
                assert(tag(t[k].1[j]) == "id-ID"@);
                assert("id-ID"@.subrange(0, 2) =~= "id"@);
            }
        } else if k == 8 {
            if j == 0 {
                assert(tag(t[k].1[j]) == "it-IT"@);
                assert("it-IT"@.subrange(0, 2) =~= "it"@);
            }
        } else if k == 9 {
            if j == 0 {
                assert(tag(t[k].1[j]) == "ja-JP"@);
                assert("ja-JP"@.subrange(0, 2) =~= "ja"@);
            }
        } else if k == 10 {
            if j == 0 {
                assert(tag(t[k].1[j]) == "ko-KR"@);
                assert("ko-KR"@.subrange(0, 2) =~= "ko"@);
            }
        } else if k == 11 {
            if j == 0 {
                assert(tag(t[k].1[j]) == "ms-MY"@);
                assert("ms-MY"@.subrange(0, 2) =~= "ms"@);
            }
        } else if k == 12 {
            if j == 0 {
                assert(tag(t[k].1[j]) == "pl-PL"@);
                assert("pl-PL"@.subrange(0, 2) =~= "pl"@);
            }
        } else if k == 13 {
            if j == 0 {
                assert(tag(t[k].1[j]) == "pt-PT"@);
                assert("pt-PT"@.subrange(0, 2) =~= "pt"@);
            }
            if j == 1 {
                assert(tag(t[k].1[j]) == "pt-BR"@);
                assert("pt-BR"@.subrange(0, 2) =~= "pt"@);
            }
        } else if k == 14 {
            if j == 0 {
                assert(tag(t[k].1[j]) == "ru-RU"@);
                assert("ru-RU"@.subrange(0, 2) =~= "ru"@);
            }
        } else if k == 15 {
            if j == 0 {
                assert(tag(t[k].1[j]) == "ta-IN"@);
                assert("ta-IN"@.subrange(0, 2) =~= "ta"@);
            }
        } else if k == 16 {
            if j == 0 {
                assert(tag(t[k].1[j]) == "te-IN"@);
                assert("te-IN"@.subrange(0, 2) =~= "te"@);
            }
        } else if k == 17 {
            if j == 0 {
                assert(tag(t[k].1[j]) == "th-TH"@);
                assert("th-TH"@.subrange(0, 2) =~= "th"@);
            }
        } else if k == 18 {
            if j == 0 {
                assert(tag(t[k].1[j]) == "tr-TR"@);
                assert("tr-TR"@.subrange(0, 2) =~= "tr"@);
            }
        } else if k == 19 {
            if j == 0 {
                assert(tag(t[k].1[j]) == "vi-VN"@);
                assert("vi-VN"@.subrange(0, 2) =~= "vi"@);
            }
        } else if k == 20 {
            if j == 0 {
                assert(tag(t[k].1[j]) == "zh-CN"@);
                assert("zh-CN"@.subrange(0, 2) =~= "zh"@);
            }
            if j == 1 {
                assert(tag(t[k].1[j]) == "zh-HK"@);
                assert("zh-HK"@.subrange(0, 2) =~= "zh"@);
            }
            if j == 2 {
                assert(tag(t[k].1[j]) == "zh-TW"@);
                assert("zh-TW"@.subrange(0, 2) =~= "zh"@);
            }
        }
    }
}

} // verus!
