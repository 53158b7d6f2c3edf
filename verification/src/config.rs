//! Label definitions and run configuration.
//!
//! A [`LabelConfig`] describes one desired label: its name, its color as six
//! hexadecimal digits, an optional description, the prior names (aliases) it
//! may replace, and whether the name is instead marked for deletion.  A
//! [`SyncConfig`] bundles the desired list with the run options.

use vstd::prelude::*;
use vstd::string::StrSliceExecFns;
use vstd::string::StringExecFns;

use crate::error::Error;

verus! {

/// Mathematical content of a [`LabelConfig`]: every string as its character
/// sequence.
pub ghost struct LabelConfigV {
    pub name: Seq<char>,
    pub color: Seq<char>,
    pub description: Option<Seq<char>>,
    pub aliases: Seq<Seq<char>>,
    pub delete: bool,
}

/// A desired label, as loaded from configuration.
#[derive(Debug, PartialEq)]
pub struct LabelConfig {
    /// Label name; the identity key within the desired list.
    pub name: String,
    /// Label color, six hexadecimal digits without a leading `#`.
    pub color: String,
    /// Optional label description.
    pub description: Option<String>,
    /// Prior names this label may replace, in priority order.
    pub aliases: Vec<String>,
    /// When set, a label of this name must be removed rather than kept.
    pub delete: bool,
}

impl View for LabelConfig {
    type V = LabelConfigV;

    open spec fn view(&self) -> LabelConfigV {
        LabelConfigV {
            name: self.name@,
            color: self.color@,
            description: self.description.deep_view(),
            aliases: self.aliases.deep_view(),
            delete: self.delete,
        }
    }
}

impl DeepView for LabelConfig {
    type V = LabelConfigV;

    open spec fn deep_view(&self) -> LabelConfigV {
        self.view()
    }
}

impl Clone for LabelConfig {
    /// Cloning keeps every field; the contents are unchanged, stated at the
    /// level of views because a cloned vector is a fresh vector.
    fn clone(&self) -> (r: Self)
        ensures
            r@ == self@,
            r.name == self.name,
            r.color == self.color,
            r.description == self.description,
            r.aliases@ == self.aliases@,
            r.delete == self.delete,
    {
        let r = LabelConfig {
            name: self.name.clone(),
            color: self.color.clone(),
            description: self.description.clone(),
            aliases: self.aliases.clone(),
            delete: self.delete,
        };
        proof {
            assert(r.description == self.description);
            assert(r.aliases@ =~= self.aliases@);
            assert(r.aliases.deep_view() =~= self.aliases.deep_view());
        }
        r
    }
}

/// A character with the Unicode `White_Space` property — the set that
/// `str::trim` strips at either end of a string: the six ASCII whitespace
/// characters, next line, no-break space, ogham space mark, the en-quad
/// to hair-space range, line and paragraph separators, narrow no-break
/// space, medium mathematical space, and ideographic space.
pub open spec fn is_white_space(c: char) -> bool {
    let v = c as u32;
    (0x09 <= v && v <= 0x0D) || v == 0x20 || v == 0x85 || v == 0xA0 || v == 0x1680 || (0x2000 <= v
        && v <= 0x200A) || v == 0x2028 || v == 0x2029 || v == 0x202F || v == 0x205F || v == 0x3000
}

/// A string is blank when every character is whitespace — that is, when
/// trimming it leaves nothing; such names and tokens are rejected as
/// empty.
pub open spec fn spec_blank(s: Seq<char>) -> bool {
    forall|i: int| 0 <= i < s.len() ==> is_white_space(#[trigger] s[i])
}

/// Whether the string is empty or all whitespace.
fn is_blank(s: &str) -> (b: bool)
    ensures
        b == spec_blank(s@),
{
    let n = s.unicode_len();
    let mut k: usize = 0;
    while k < n
        invariant
            k <= n,
            n == s@.len(),
            forall|j: int| 0 <= j < k ==> is_white_space(#[trigger] s@[j]),
        decreases n - k,
    {
        let v = s.get_char(k) as u32;
        let space = (0x09 <= v && v <= 0x0D) || v == 0x20 || v == 0x85 || v == 0xA0 || v == 0x1680
            || (0x2000 <= v && v <= 0x200A) || v == 0x2028 || v == 0x2029 || v == 0x202F || v
            == 0x205F || v == 0x3000;
        if !space {
            return false;
        }
        k = k + 1;
    }
    true
}

/// A hexadecimal digit: `0`-`9`, `a`-`f` or `A`-`F`.
pub open spec fn is_hex_digit(c: char) -> bool {
    let v = c as u32;
    (('0' as u32) <= v && v <= ('9' as u32)) || (('a' as u32) <= v && v <= ('f' as u32)) || ((
    'A' as u32) <= v && v <= ('F' as u32))
}

/// A valid label color: exactly six hexadecimal digits, no leading `#`.
pub open spec fn spec_valid_hex_color(s: Seq<char>) -> bool {
    s.len() == 6 && forall|i: int| 0 <= i < s.len() ==> is_hex_digit(#[trigger] s[i])
}

/// Whether the string is a valid label color: exactly six hexadecimal
/// digits, without a leading `#`.
pub fn is_valid_hex_color(color: &str) -> (b: bool)
    ensures
        b == spec_valid_hex_color(color@),
{
    let n = color.unicode_len();
    if n != 6 {
        return false;
    }
    let mut k: usize = 0;
    while k < n
        invariant
            k <= n,
            n == color@.len(),
            forall|j: int| 0 <= j < k ==> is_hex_digit(#[trigger] color@[j]),
        decreases n - k,
    {
        let v = color.get_char(k) as u32;
        let digit = (48 <= v && v <= 57) || (97 <= v && v <= 102) || (65 <= v && v <= 70);
        if !digit {
            return false;
        }
        k = k + 1;
    }
    true
}

/// The slash at index `i` is the only one in the string.
pub open spec fn is_single_slash_at(s: Seq<char>, i: int) -> bool {
    0 <= i < s.len() && s[i] == '/' && forall|j: int|
        0 <= j < s.len() && j != i ==> #[trigger] s[j] != '/'
}

/// A valid repository identifier: `owner/repo`, with exactly one slash and
/// a non-empty part on each side.
pub open spec fn spec_valid_repository(s: Seq<char>) -> bool {
    exists|i: int| #[trigger] is_single_slash_at(s, i) && 1 <= i && i + 1 < s.len()
}

/// Whether the string has the `owner/repo` form: exactly one slash, with a
/// non-empty owner and repository name around it.
pub fn is_valid_repository_format(repo: &str) -> (b: bool)
    ensures
        b == spec_valid_repository(repo@),
{
    let n = repo.unicode_len();
    let mut slash: Option<usize> = None;
    let mut second: Option<usize> = None;
    let mut k: usize = 0;
    while k < n
        invariant
            k <= n,
            n == repo@.len(),
            slash is None ==> second is None,
            slash is None ==> forall|j: int| 0 <= j < k ==> #[trigger] repo@[j] != '/',
            slash matches Some(p) ==> ((p as int) < k && repo@[p as int] == '/' && (
            second is None ==> forall|j: int|
                0 <= j < k && j != p as int ==> #[trigger] repo@[j] != '/') && (
            second matches Some(q) ==> (q as int) < k && q != p && repo@[q as int] == '/')),
        decreases n - k,
    {
        let c = repo.get_char(k);
        if c == '/' {
            match slash {
                None => { slash = Some(k) },
                Some(_) => { second = Some(k) },
            }
        }
        k = k + 1;
    }
    match (slash, second) {
        (Some(p), None) => {
            let ok = 1 <= p && p + 1 < n;
            proof {
                if ok {
                    assert(is_single_slash_at(repo@, p as int));
                }
            }
            ok
        },
        (Some(p), Some(q)) => {
            proof {
                assert forall|i: int| !is_single_slash_at(repo@, i) by {
                    if is_single_slash_at(repo@, i) {
                        if i != p as int {
                            assert(repo@[p as int] != '/');
                        } else {
                            assert(repo@[q as int] != '/');
                        }
                    }
                }
            }
            false
        },
        (None, _) => false,
    }
}

/// Everything an ASCII uppercase letter maps to under lowercasing; other
/// characters are unchanged.
pub open spec fn ascii_lower_char(c: char) -> char {
    let v = c as u32;
    if ('A' as u32) <= v && v <= ('Z' as u32) {
        ((v + 32) as u8) as char
    } else {
        c
    }
}

/// ASCII-lowercase every character of the sequence.
pub open spec fn ascii_lower(s: Seq<char>) -> Seq<char> {
    s.map_values(|c: char| ascii_lower_char(c))
}

/// Drop every leading `#` from the sequence.
pub open spec fn strip_hashes(s: Seq<char>) -> Seq<char>
    decreases s.len(),
{
    if s.len() > 0 && s[0] == '#' {
        strip_hashes(s.drop_first())
    } else {
        s
    }
}

/// A color in comparison form: leading `#` stripped, ASCII-lowercased.
pub open spec fn norm_color(s: Seq<char>) -> Seq<char> {
    ascii_lower(strip_hashes(s))
}

/// When the first `k` characters are `#` and the next one (if any) is not,
/// stripping leading hashes is the same as skipping `k` characters.
proof fn lemma_strip_hashes_skip(s: Seq<char>, k: int)
    requires
        0 <= k <= s.len(),
        forall|j: int| 0 <= j < k ==> #[trigger] s[j] == '#',
        k == s.len() || s[k] != '#',
    ensures
        strip_hashes(s) == s.skip(k),
    decreases k,
{
    if k == 0 {
        assert(s.skip(0) =~= s);
    } else {
        assert(s.len() > 0 && s[0] == '#');
        let t = s.drop_first();
        assert(forall|j: int| 0 <= j < k - 1 ==> #[trigger] t[j] == '#');
        lemma_strip_hashes_skip(t, k - 1);
        assert(t.skip(k - 1) =~= s.skip(k));
    }
}

/// Relies on `core::iter::Iterator::collect`: gathering characters into a
/// `String` keeps them unchanged and in order.
#[verifier::external_body]
pub(crate) fn string_from_chars(v: &Vec<char>) -> (s: String)
    ensures
        s@ == v@,
{
    v.iter().collect()
}

impl LabelConfig {
    /// Create a label from a name and color, validating both.
    ///
    /// Succeeds exactly when the name is not blank and the color is six
    /// hexadecimal digits; the label then has no description, no aliases,
    /// and is not marked for deletion.
    pub fn new(name: String, color: String) -> (r: Result<LabelConfig, Error>)
        ensures
            match r {
                Ok(l) => !spec_blank(l.name@) && spec_valid_hex_color(l.color@) && l.name@ == name@
                    && l.color@ == color@ && l.description is None && l.aliases@ == Seq::<
                    String,
                >::empty() && l.delete == false,
                Err(e) => (spec_blank(name@) || !spec_valid_hex_color(color@)) && (spec_blank(name@)
                    ==> (e matches Error::LabelValidation(m) && m@
                    == "Label name cannot be empty"@)) && (!spec_blank(name@) ==> (
                e matches Error::InvalidLabelColor(c) && c@ == color@)),
            },
    {
        let label = LabelConfig {
            name,
            color,
            description: None,
            aliases: Vec::new(),
            delete: false,
        };
        match label.validate() {
            Ok(()) => Ok(label),
            Err(e) => Err(e),
        }
    }

    /// Check that the name is not blank and the color is six hexadecimal
    /// digits, reporting the first failure.
    pub fn validate(&self) -> (r: Result<(), Error>)
        ensures
            match r {
                Ok(()) => !spec_blank(self.name@) && spec_valid_hex_color(self.color@),
                Err(e) => (spec_blank(self.name@) || !spec_valid_hex_color(self.color@)) && (
                spec_blank(self.name@) ==> (e matches Error::LabelValidation(m) && m@
                    == "Label name cannot be empty"@)) && (!spec_blank(self.name@) ==> (
                e matches Error::InvalidLabelColor(c) && c@ == self.color@)),
            },
    {
        if is_blank(self.name.as_str()) {
            return Err(Error::label_validation("Label name cannot be empty"));
        }
        if !is_valid_hex_color(self.color.as_str()) {
            return Err(Error::InvalidLabelColor(self.color.clone()));
        }
        Ok(())
    }

    /// Put a color into comparison form: strip any leading `#` and
    /// ASCII-lowercase the rest.
    pub fn normalize_color(color: &str) -> (r: String)
        ensures
            r@ == norm_color(color@),
    {
        let n = color.unicode_len();
        let mut k: usize = 0;
        while k < n && color.get_char(k) == '#'
            invariant
                k <= n,
                n == color@.len(),
                forall|j: int| 0 <= j < k ==> #[trigger] color@[j] == '#',
            decreases n - k,
        {
            k = k + 1;
        }
        proof {
            lemma_strip_hashes_skip(color@, k as int);
        }
        let mut out: Vec<char> = Vec::new();
        let mut i: usize = k;
        while i < n
            invariant
                k <= i <= n,
                n == color@.len(),
                out@.len() == i - k,
                forall|j: int|
                    0 <= j < out@.len() ==> #[trigger] out@[j] == ascii_lower_char(
                        color@[k + j],
                    ),
            decreases n - i,
        {
            let c = color.get_char(i);
            let v = c as u32;
            let lower: char = if 65 <= v && v <= 90 {
                ((v + 32) as u8) as char
            } else {
                c
            };
            out.push(lower);
            i = i + 1;
        }
        proof {
            assert(out@ =~= ascii_lower(color@.skip(k as int)));
        }
        string_from_chars(&out)
    }
}

/// Whether a desired label passes validation: name not blank, color six
/// hexadecimal digits.
pub open spec fn label_ok(l: LabelConfig) -> bool {
    !spec_blank(l.name@) && spec_valid_hex_color(l.color@)
}

/// The content of the built-in default label set, label by label.
pub open spec fn spec_default_labels() -> Seq<LabelConfigV> {
    seq![
        LabelConfigV {
            name: "bug"@,
            color: "d73a4a"@,
            description: Some("Something isn't working"@),
            aliases: seq!["defect"@],
            delete: false,
        },
        LabelConfigV {
            name: "enhancement"@,
            color: "a2eeef"@,
            description: Some("New feature or request"@),
            aliases: seq!["feature"@],
            delete: false,
        },
        LabelConfigV {
            name: "documentation"@,
            color: "0075ca"@,
            description: Some("Improvements or additions to documentation"@),
            aliases: seq!["docs"@],
            delete: false,
        },
        LabelConfigV {
            name: "duplicate"@,
            color: "cfd3d7"@,
            description: Some("This issue or pull request already exists"@),
            aliases: Seq::empty(),
            delete: false,
        },
        LabelConfigV {
            name: "good first issue"@,
            color: "7057ff"@,
            description: Some("Good for newcomers"@),
            aliases: seq!["beginner-friendly"@],
            delete: false,
        },
        LabelConfigV {
            name: "help wanted"@,
            color: "008672"@,
            description: Some("Extra attention is needed"@),
            aliases: Seq::empty(),
            delete: false,
        },
    ]
}

/// The standard label set used when no label configuration is given.
pub fn default_labels() -> (r: Vec<LabelConfig>)
    ensures
        r.deep_view() == spec_default_labels(),
{
    let mut r: Vec<LabelConfig> = Vec::new();
    let mut a0: Vec<String> = Vec::new();
    a0.push(String::from_str("defect"));
    let l0 = LabelConfig {
        name: String::from_str("bug"),
        color: String::from_str("d73a4a"),
        description: Some(String::from_str("Something isn't working")),
        aliases: a0,
        delete: false,
    };
    proof {
        assert(l0.aliases.deep_view() =~= seq!["defect"@]);
        assert(l0@ == spec_default_labels()[0]);
    }
    r.push(l0);
    let mut a1: Vec<String> = Vec::new();
    a1.push(String::from_str("feature"));
    let l1 = LabelConfig {
        name: String::from_str("enhancement"),
        color: String::from_str("a2eeef"),
        description: Some(String::from_str("New feature or request")),
        aliases: a1,
        delete: false,
    };
    proof {
        assert(l1.aliases.deep_view() =~= seq!["feature"@]);
        assert(l1@ == spec_default_labels()[1]);
    }
    r.push(l1);
    let mut a2: Vec<String> = Vec::new();
    a2.push(String::from_str("docs"));
    let l2 = LabelConfig {
        name: String::from_str("documentation"),
        color: String::from_str("0075ca"),
        description: Some(String::from_str("Improvements or additions to documentation")),
        aliases: a2,
        delete: false,
    };
    proof {
        assert(l2.aliases.deep_view() =~= seq!["docs"@]);
        assert(l2@ == spec_default_labels()[2]);
    }
    r.push(l2);
    let l3 = LabelConfig {
        name: String::from_str("duplicate"),
        color: String::from_str("cfd3d7"),
        description: Some(String::from_str("This issue or pull request already exists")),
        aliases: Vec::new(),
        delete: false,
    };
    proof {
        assert(l3.aliases.deep_view() =~= Seq::<Seq<char>>::empty());
        assert(l3@ == spec_default_labels()[3]);
    }
    r.push(l3);
    let mut a4: Vec<String> = Vec::new();
    a4.push(String::from_str("beginner-friendly"));
    let l4 = LabelConfig {
        name: String::from_str("good first issue"),
        color: String::from_str("7057ff"),
        description: Some(String::from_str("Good for newcomers")),
        aliases: a4,
        delete: false,
    };
    proof {
        assert(l4.aliases.deep_view() =~= seq!["beginner-friendly"@]);
        assert(l4@ == spec_default_labels()[4]);
    }
    r.push(l4);
    let l5 = LabelConfig {
        name: String::from_str("help wanted"),
        color: String::from_str("008672"),
        description: Some(String::from_str("Extra attention is needed")),
        aliases: Vec::new(),
        delete: false,
    };
    proof {
        assert(l5.aliases.deep_view() =~= Seq::<Seq<char>>::empty());
        assert(l5@ == spec_default_labels()[5]);
    }
    r.push(l5);
    proof {
        assert(r.deep_view() =~= spec_default_labels());
    }
    r
}

/// Configuration of one synchronization run.
#[derive(Debug)]
pub struct SyncConfig {
    /// Access token for the label store.
    pub access_token: String,
    /// Target repository, in `owner/repo` form.
    pub repository: String,
    /// When set, plan and count but never call the store.
    pub dry_run: bool,
    /// When set, observed labels missing from the configuration are kept;
    /// otherwise they are deleted.
    pub allow_added_labels: bool,
    /// The desired labels; `None` means the default set.
    pub labels: Option<Vec<LabelConfig>>,
}

impl Clone for SyncConfig {
    /// Cloning keeps every field; the label list, if any, keeps its
    /// contents.
    fn clone(&self) -> (r: Self)
        ensures
            r.access_token == self.access_token,
            r.repository == self.repository,
            r.dry_run == self.dry_run,
            r.allow_added_labels == self.allow_added_labels,
            r.labels is Some <==> self.labels is Some,
            r.labels matches Some(ls) ==> (self.labels matches Some(ls0) && ls.deep_view()
                == ls0.deep_view()),
    {
        let r = SyncConfig {
            access_token: self.access_token.clone(),
            repository: self.repository.clone(),
            dry_run: self.dry_run,
            allow_added_labels: self.allow_added_labels,
            labels: self.labels.clone(),
        };
        proof {
            if self.labels is Some && r.labels is Some {
                let ls0 = self.labels.unwrap();
                let ls = r.labels.unwrap();
                assert(cloned::<Vec<LabelConfig>>(ls0, ls));
                assert forall|i: int|
                    0 <= i < ls0@.len() implies #[trigger] ls.deep_view()[i] == ls0.deep_view()[i]
                    by {
                    assert(cloned::<LabelConfig>(ls0[i], ls[i]));
                }
                assert(ls.deep_view() =~= ls0.deep_view());
            }
        }
        r
    }
}

impl SyncConfig {
    /// Check the whole run configuration: the token must not be blank, the
    /// repository must be `owner/repo`, and every configured label must
    /// validate.  The first failure is reported.
    pub fn validate(&self) -> (r: Result<(), Error>)
        ensures
            match r {
                Ok(()) => !spec_blank(self.access_token@) && spec_valid_repository(
                    self.repository@,
                ) && (self.labels matches Some(ls) ==> forall|k: int|
                    0 <= k < ls@.len() ==> label_ok(#[trigger] ls@[k])),
                Err(e) => {
                    &&& (spec_blank(self.access_token@) ==> (
                    e matches Error::ConfigValidation(m) && m@ == "Access token is required"@))
                    &&& (!spec_blank(self.access_token@) && !spec_valid_repository(
                        self.repository@,
                    ) ==> (e matches Error::InvalidRepositoryFormat(t) && t@ == self.repository@))
                    &&& (!spec_blank(self.access_token@) && spec_valid_repository(self.repository@)
                        ==> (self.labels matches Some(ls) && exists|k: int|
                        #![auto]
                        0 <= k < ls@.len() && !label_ok(ls@[k]) && (forall|j: int|
                            0 <= j < k ==> label_ok(ls@[j])) && (spec_blank(ls@[k].name@) ==> (
                        e matches Error::LabelValidation(m) && m@ == "Label name cannot be empty"@))
                            && (!spec_blank(ls@[k].name@) ==> (e matches Error::InvalidLabelColor(
                            c,
                        ) && c@ == ls@[k].color@))))
                },
            },
    {
        if is_blank(self.access_token.as_str()) {
            return Err(Error::config_validation("Access token is required"));
        }
        if !is_valid_repository_format(self.repository.as_str()) {
            return Err(Error::InvalidRepositoryFormat(self.repository.clone()));
        }
        match &self.labels {
            Some(ls) => {
                let mut k: usize = 0;
                while k < ls.len()
                    invariant
                        k <= ls@.len(),
                        !spec_blank(self.access_token@),
                        spec_valid_repository(self.repository@),
                        self.labels matches Some(l) && l == *ls,
                        forall|j: int| 0 <= j < k ==> label_ok(#[trigger] ls@[j]),
                    decreases ls@.len() - k,
                {
                    match ls[k].validate() {
                        Ok(()) => {},
                        Err(e) => {
                            return Err(e);
                        },
                    }
                    k = k + 1;
                }
            },
            None => {},
        }
        Ok(())
    }

    /// Split the repository identifier at its single slash into owner and
    /// repository name.  Fails when the identifier does not contain exactly
    /// one slash.
    pub fn parse_repository(&self) -> (r: Result<(String, String), Error>)
        ensures
            match r {
                Ok(pair) => exists|i: int|
                    #![auto]
                    is_single_slash_at(self.repository@, i) && pair.0@ == self.repository@.take(i)
                        && pair.1@ == self.repository@.skip(i + 1),
                Err(e) => (forall|i: int| !is_single_slash_at(self.repository@, i)) && (
                e matches Error::InvalidRepositoryFormat(t) && t@ == self.repository@),
            },
    {
        let s: &str = self.repository.as_str();
        let n = s.unicode_len();
        let mut slash: Option<usize> = None;
        let mut second: Option<usize> = None;
        let mut k: usize = 0;
        while k < n
            invariant
                k <= n,
                n == s@.len(),
                slash is None ==> second is None,
                slash is None ==> forall|j: int| 0 <= j < k ==> #[trigger] s@[j] != '/',
                slash matches Some(p) ==> ((p as int) < k && s@[p as int] == '/' && (
                second is None ==> forall|j: int|
                    0 <= j < k && j != p as int ==> #[trigger] s@[j] != '/') && (
                second matches Some(q) ==> (q as int) < k && q != p && s@[q as int] == '/')),
            decreases n - k,
        {
            let c = s.get_char(k);
            if c == '/' {
                match slash {
                    None => { slash = Some(k) },
                    Some(_) => { second = Some(k) },
                }
            }
            k = k + 1;
        }
        match (slash, second) {
            (Some(p), None) => {
                proof {
                    assert(is_single_slash_at(s@, p as int));
                }
                let owner = s.substring_char(0, p).to_owned();
                let name = s.substring_char(p + 1, n).to_owned();
                proof {
                    assert(owner@ =~= s@.take(p as int));
                    assert(name@ =~= s@.skip(p as int + 1));
                }
                Ok((owner, name))
            },
            (Some(p), Some(q)) => {
                proof {
                    assert forall|i: int| !is_single_slash_at(s@, i) by {
                        if is_single_slash_at(s@, i) {
                            if i != p as int {
                                assert(s@[p as int] != '/');
                            } else {
                                assert(s@[q as int] != '/');
                            }
                        }
                    }
                }
                Err(Error::InvalidRepositoryFormat(self.repository.clone()))
            },
            (None, _) => Err(Error::InvalidRepositoryFormat(self.repository.clone())),
        }
    }
}

} // verus!
