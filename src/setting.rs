//! Reading `NAME=VERSION` settings given on the command line.
use vstd::prelude::*;

use crate::text::{find_char, index_of, is_char, lemma_first_index_bounds};

verus! {

/// Why a setting string could not be read; each variant carries the input.
#[derive(Debug, PartialEq, Eq)]
pub enum ServiceSettingParseError {
    /// The string holds no `=`.
    ExpectedEquals(String),
    /// Nothing stands before the first `=`.
    ExpectedServiceName(String),
}

pub enum ParseErrorView {
    ExpectedEquals(Seq<char>),
    ExpectedServiceName(Seq<char>),
}

impl View for ServiceSettingParseError {
    type V = ParseErrorView;

    open spec fn view(&self) -> ParseErrorView {
        match self {
            ServiceSettingParseError::ExpectedEquals(s) => ParseErrorView::ExpectedEquals(s@),
            ServiceSettingParseError::ExpectedServiceName(s) => ParseErrorView::ExpectedServiceName(
                s@,
            ),
        }
    }
}

impl ServiceSettingParseError {
    /// A human-readable account of the error.
    pub fn message(&self) -> (r: String)
        ensures
            r@ == match self@ {
                ParseErrorView::ExpectedEquals(s) => "Expected string to contain \"=\", got "@ + s
                    + " instead"@,
                ParseErrorView::ExpectedServiceName(s) => "Expected service to have a name ahead of \"=\", got "@
                    + s + " instead"@,
            },
    {
        match self {
            ServiceSettingParseError::ExpectedEquals(s) => {
                let m = String::from_str("Expected string to contain \"=\", got ");
                m.concat(s.as_str()).concat(" instead")
            },
            ServiceSettingParseError::ExpectedServiceName(s) => {
                let m = String::from_str("Expected service to have a name ahead of \"=\", got ");
                m.concat(s.as_str()).concat(" instead")
            },
        }
    }
}

/// A request to set a service to a version, or to remove it (no version).
#[derive(Debug, PartialEq, Eq)]
pub struct ServiceSetting {
    pub name: String,
    pub version: Option<String>,
}

pub struct SettingView {
    pub name: Seq<char>,
    pub version: Option<Seq<char>>,
}

pub open spec fn opt_view(o: Option<String>) -> Option<Seq<char>> {
    match o {
        Some(s) => Some(s@),
        None => None,
    }
}

impl View for ServiceSetting {
    type V = SettingView;

    open spec fn view(&self) -> SettingView {
        SettingView { name: self.name@, version: opt_view(self.version) }
    }
}

pub open spec fn settings_view(v: Seq<ServiceSetting>) -> Seq<SettingView> {
    v.map_values(|s: ServiceSetting| s@)
}

/// What a setting string means: the name is the text before the first `=`,
/// the version the text between the first `=` and the next `=` (or the end);
/// an empty version asks for removal.
pub open spec fn parse_setting(s: Seq<char>) -> Result<SettingView, ParseErrorView> {
    let i = index_of(s, '=');
    if i >= s.len() {
        Err(ParseErrorView::ExpectedEquals(s))
    } else if i == 0 {
        Err(ParseErrorView::ExpectedServiceName(s))
    } else {
        let rest = s.subrange(i + 1, s.len() as int);
        let v = rest.subrange(0, index_of(rest, '='));
        Ok(SettingView { name: s.subrange(0, i), version: if v.len() == 0 { None } else { Some(v) } })
    }
}

pub open spec fn parse_result_view(r: Result<ServiceSetting, ServiceSettingParseError>) -> Result<
    SettingView,
    ParseErrorView,
> {
    match r {
        Ok(s) => Ok(s@),
        Err(e) => Err(e@),
    }
}

impl ServiceSetting {
    /// Reads one `NAME=VERSION` string.
    pub fn from_str(s: &str) -> (r: Result<ServiceSetting, ServiceSettingParseError>)
        ensures
            parse_result_view(r) == parse_setting(s@),
    {
        let n = s.unicode_len();
        let i = find_char(s, '=');
        proof {
            lemma_first_index_bounds(s@, is_char('='));
        }
        if i == n {
            return Err(ServiceSettingParseError::ExpectedEquals(String::from_str(s)));
        }
        if i == 0 {
            return Err(ServiceSettingParseError::ExpectedServiceName(String::from_str(s)));
        }
        let rest = s.substring_char(i + 1, n);
        let j = find_char(rest, '=');
        proof {
            lemma_first_index_bounds(rest@, is_char('='));
        }
        let v = rest.substring_char(0, j);
        let version = if j == 0 {
            None
        } else {
            Some(String::from_str(v))
        };
        Ok(ServiceSetting { name: String::from_str(s.substring_char(0, i)), version })
    }
}

/// Reads every setting string, failing on the first one that cannot be read.
pub fn parse_settings(specs: &Vec<String>) -> (r: Result<Vec<ServiceSetting>, ServiceSettingParseError>)
    ensures
        r is Ok <==> forall|i: int| 0 <= i < specs.len() ==> (#[trigger] parse_setting(specs[i]@)) is Ok,
        r matches Ok(v) ==> v.len() == specs.len() && forall|i: int|
            0 <= i < specs.len() ==> Ok::<SettingView, ParseErrorView>(#[trigger] v[i]@) == parse_setting(specs[i]@),
        r matches Err(e) ==> exists|i: int|
            0 <= i < specs.len() && (forall|j: int| 0 <= j < i ==> (#[trigger] parse_setting(specs[j]@)) is Ok)
                && Err::<SettingView, ParseErrorView>(e@) == #[trigger] parse_setting(specs[i]@),
{
    let mut out: Vec<ServiceSetting> = Vec::new();
    let mut i: usize = 0;
    while i < specs.len()
        invariant
            i <= specs.len(),
            out.len() == i,
            forall|j: int| 0 <= j < i ==> Ok::<SettingView, ParseErrorView>(#[trigger] out[j]@) == parse_setting(specs[j]@),
        decreases specs.len() - i,
    {
        match ServiceSetting::from_str(specs[i].as_str()) {
            Ok(s) => out.push(s),
            Err(e) => {
                assert(forall|j: int| 0 <= j < i ==> (#[trigger] parse_setting(specs[j]@)) is Ok) by {
                    assert forall|j: int| 0 <= j < i implies (#[trigger] parse_setting(specs[j]@)) is Ok by {
                        assert(Ok::<SettingView, ParseErrorView>(out[j]@) == parse_setting(specs[j]@));
                    }
                }
                return Err(e);
            },
        }
        i += 1;
    }
    assert forall|k: int| 0 <= k < specs.len() implies (#[trigger] parse_setting(specs[k]@)) is Ok by {
        assert(Ok::<SettingView, ParseErrorView>(out[k]@) == parse_setting(specs[k]@));
    }
    Ok(out)
}

} // verus!
