//! Transfers list logic: status filters, which row stays selected, and the
//! normalised file extensions that destination rules are matched by.

use vstd::prelude::*;
use crate::types::{DownloadId, DownloadStatus};

verus! {

/// The filter chips above the transfers list.
#[derive(Debug, Clone, Copy, PartialEq, Eq, Structural)]
pub enum TransferFilter {
    All,
    Active,
    Finished,
    Paused,
    Failed,
}

impl TransferFilter {
    pub open spec fn accepts(self, status: DownloadStatus) -> bool {
        match self {
            TransferFilter::All => true,
            TransferFilter::Active => status == DownloadStatus::Downloading || status
                == DownloadStatus::Pending,
            TransferFilter::Finished => status == DownloadStatus::Finished,
            TransferFilter::Paused => status == DownloadStatus::Paused,
            TransferFilter::Failed => status == DownloadStatus::Error,
        }
    }

    /// Whether a transfer with this status is shown under this filter.
    pub fn matches(self, status: DownloadStatus) -> (r: bool)
        ensures
            r == self.accepts(status),
            self == TransferFilter::All ==> r,
            self == TransferFilter::Finished ==> r == (status == DownloadStatus::Finished),
            self == TransferFilter::Paused ==> r == (status == DownloadStatus::Paused),
            self == TransferFilter::Failed ==> r == (status == DownloadStatus::Error),
    {
        match self {
            TransferFilter::All => true,
            TransferFilter::Active => status == DownloadStatus::Downloading || status
                == DownloadStatus::Pending,
            TransferFilter::Finished => status == DownloadStatus::Finished,
            TransferFilter::Paused => status == DownloadStatus::Paused,
            TransferFilter::Failed => status == DownloadStatus::Error,
        }
    }
}

/// The four status filters split the transfers: every status is shown
/// under exactly one of Active, Finished, Paused and Failed (so no failed
/// download appears under Finished), each of those shows only its own
/// statuses, and All shows everything.
pub proof fn lemma_filters_partition(status: DownloadStatus)
    ensures
        TransferFilter::All.accepts(status),
        TransferFilter::Finished.accepts(status) == (status == DownloadStatus::Finished),
        TransferFilter::Paused.accepts(status) == (status == DownloadStatus::Paused),
        TransferFilter::Failed.accepts(status) == (status == DownloadStatus::Error),
        TransferFilter::Active.accepts(status) == (status == DownloadStatus::Downloading || status
            == DownloadStatus::Pending),
        (if TransferFilter::Active.accepts(status) { 1int } else { 0 }) + (if TransferFilter::Finished.accepts(status) { 1int } else { 0 })
            + (if TransferFilter::Paused.accepts(status) { 1int } else { 0 }) + (if TransferFilter::Failed.accepts(status) { 1int } else { 0 }) == 1,
{
}

/// How a row of the downloads list presents a download.
#[derive(Debug, Clone, Copy, PartialEq, Eq, Structural)]
pub enum DownloadState {
    Active,
    Queued,
    Paused,
    Finished,
    Error,
}

/// The row state for a download status: a pending download shows as queued.
pub fn download_row_state(status: DownloadStatus) -> (state: DownloadState)
    ensures
        state == (match status {
            DownloadStatus::Downloading => DownloadState::Active,
            DownloadStatus::Paused => DownloadState::Paused,
            DownloadStatus::Finished => DownloadState::Finished,
            DownloadStatus::Error => DownloadState::Error,
            DownloadStatus::Pending => DownloadState::Queued,
        }),
{
    match status {
        DownloadStatus::Downloading => DownloadState::Active,
        DownloadStatus::Paused => DownloadState::Paused,
        DownloadStatus::Finished => DownloadState::Finished,
        DownloadStatus::Error => DownloadState::Error,
        DownloadStatus::Pending => DownloadState::Queued,
    }
}

/// What a row's pause/resume button does.
#[derive(Debug, Clone, Copy, PartialEq, Eq, Structural)]
pub enum RowToggle {
    Pause,
    Resume,
}

/// Running and queued downloads can be paused, paused ones resumed; finished
/// and failed ones have no such button.
pub fn row_toggle(state: DownloadState) -> (t: Option<RowToggle>)
    ensures
        t == (match state {
            DownloadState::Active | DownloadState::Queued => Some(RowToggle::Pause),
            DownloadState::Paused => Some(RowToggle::Resume),
            _ => None,
        }),
{
    match state {
        DownloadState::Active | DownloadState::Queued => Some(RowToggle::Pause),
        DownloadState::Paused => Some(RowToggle::Resume),
        _ => None,
    }
}

/// The selection to show for the visible rows (given by their ids, in
/// order): the current selection while its row is still visible, else the
/// first visible row, else nothing.
pub fn resolve_selected_transfer_id(rows: &[DownloadId], selected_id: Option<DownloadId>) -> (r: Option<DownloadId>)
    ensures
        r == (match selected_id {
            Some(id) if rows@.contains(id) => Some(id),
            _ => if rows@.len() > 0 { Some(rows@[0]) } else { None },
        }),
{
    if let Some(id) = selected_id {
        let n = rows.len();
        let mut i: usize = 0;
        while i < n
            invariant
                i <= n,
                n == rows@.len(),
                selected_id == Some(id),
                forall|t: int| 0 <= t < i ==> rows@[t] != id,
            decreases n - i,
        {
            if rows[i] == id {
                assert(rows@.contains(id)) by {
                    assert(rows@[i as int] == id);
                }
                return Some(id);
            }
            i += 1;
        }
        assert(!rows@.contains(id));
    }
    if rows.len() > 0 {
        Some(rows[0])
    } else {
        None
    }
}

/// ASCII upper-case letters become lower-case; everything else is kept.
pub open spec fn ascii_lower(c: char) -> char {
    if 'A' <= c && c <= 'Z' { ((c as u32) + 32) as char } else { c }
}

pub open spec fn ascii_lower_seq(s: Seq<char>) -> Seq<char> {
    Seq::new(s.len(), |i: int| ascii_lower(s[i]))
}

/// Lower-casing turns each ASCII capital into the small letter at the same
/// place in the alphabet, leaves every other character as it is, and leaves
/// no ASCII capital behind; doing it twice is doing it once.
pub proof fn lemma_ascii_lower_meaning(c: char)
    ensures
        'A' <= c <= 'Z' ==> 'a' <= ascii_lower(c) <= 'z' && ascii_lower(c) as u32 - 'a' as u32 == c as u32
            - 'A' as u32,
        !('A' <= c <= 'Z') ==> ascii_lower(c) == c,
        !('A' <= ascii_lower(c) <= 'Z'),
        ascii_lower(ascii_lower(c)) == ascii_lower(c),
{
}

/// The characters that `char::is_whitespace` accepts (Unicode White_Space).
pub open spec fn is_whitespace_spec(c: char) -> bool {
    let u = c as u32;
    ||| 0x9 <= u <= 0xD
    ||| u == 0x20
    ||| u == 0x85
    ||| u == 0xA0
    ||| u == 0x1680
    ||| 0x2000 <= u <= 0x200A
    ||| u == 0x2028
    ||| u == 0x2029
    ||| u == 0x202F
    ||| u == 0x205F
    ||| u == 0x3000
}

fn is_whitespace(c: char) -> (r: bool)
    ensures
        r == is_whitespace_spec(c),
{
    let u = c as u32;
    (0x9 <= u && u <= 0xD) || u == 0x20 || u == 0x85 || u == 0xA0 || u == 0x1680 || (0x2000 <= u && u
        <= 0x200A) || u == 0x2028 || u == 0x2029 || u == 0x202F || u == 0x205F || u == 0x3000
}

/// `s` without leading and trailing whitespace: the `lo..hi` slice such
/// that nothing outside it is kept but whitespace and both its ends are not
/// whitespace.
pub open spec fn is_trim_of(s: Seq<char>, lo: int, hi: int) -> bool {
    &&& 0 <= lo <= hi <= s.len()
    &&& forall|i: int| 0 <= i < lo ==> is_whitespace_spec(#[trigger] s[i])
    &&& forall|i: int| hi <= i < s.len() ==> is_whitespace_spec(#[trigger] s[i])
    &&& lo < hi ==> !is_whitespace_spec(s[lo]) && !is_whitespace_spec(s[hi - 1])
}

/// What `str::trim` keeps of `s`.
pub open spec fn trimmed(s: Seq<char>) -> Seq<char> {
    let (lo, hi) = choose|lo: int, hi: int| #[trigger] is_trim_of(s, lo, hi);
    s.subrange(lo, hi)
}

proof fn lemma_trim_unique(s: Seq<char>, lo: int, hi: int)
    requires
        is_trim_of(s, lo, hi),
    ensures
        trimmed(s) == s.subrange(lo, hi),
{
    let (lo2, hi2) = choose|lo: int, hi: int| #[trigger] is_trim_of(s, lo, hi);
    assert(is_trim_of(s, lo2, hi2));
    if lo < hi && lo2 < hi2 {
        // Both slices start at the first non-whitespace character and end
        // after the last one.
        if lo < lo2 {
            assert(is_whitespace_spec(s[lo]));
        }
        if lo2 < lo {
            assert(is_whitespace_spec(s[lo2]));
        }
        if hi < hi2 {
            assert(is_whitespace_spec(s[hi2 - 1]));
        }
        if hi2 < hi {
            assert(is_whitespace_spec(s[hi - 1]));
        }
        assert(lo == lo2 && hi == hi2);
    } else {
        // An all-whitespace string trims to nothing.
        if lo < hi {
            assert(lo2 >= hi2);
            assert(is_whitespace_spec(s[lo])) by {
                if lo < lo2 {
                } else {
                    assert(lo >= hi2);
                }
            }
        }
        if lo2 < hi2 {
            assert(is_whitespace_spec(s[lo2])) by {
                if lo2 < lo {
                } else {
                    assert(lo2 >= hi);
                }
            }
        }
        assert(s.subrange(lo, hi) =~= Seq::<char>::empty());
        assert(s.subrange(lo2, hi2) =~= Seq::<char>::empty());
    }
}

/// Calls `String::push`: the contract claims, as std documents, that the
/// string afterwards holds its old characters followed by `c`.
#[verifier::external_body]
fn push_char(s: &mut String, c: char)
    ensures
        final(s)@ == old(s)@.push(c),
{
    s.push(c);
}

/// `.` followed by `text` lower-cased (ASCII letters only).
pub fn dotted_lowercase(text: &str) -> (r: String)
    ensures
        r@ == seq!['.'] + ascii_lower_seq(text@),
{
    let mut out = String::from_str(".");
    proof {
        reveal_strlit(".");
    }
    let n = text.unicode_len();
    let mut i: usize = 0;
    while i < n
        invariant
            i <= n,
            n == text@.len(),
            out@ == seq!['.'] + ascii_lower_seq(text@.take(i as int)),
        decreases n - i,
    {
        let c = text.get_char(i);
        let lower = if 'A' <= c && c <= 'Z' {
            ((c as u8) + 32) as char
        } else {
            c
        };
        push_char(&mut out, lower);
        i += 1;
        assert(out@ =~= seq!['.'] + ascii_lower_seq(text@.take(i as int)));
    }
    assert(text@.take(n as int) =~= text@);
    out
}

/// The extension a destination rule lists, normalised: trimmed of
/// whitespace, lower-cased, and with a leading dot (added when missing);
/// None when nothing but whitespace is given.
pub fn normalized_rule_extension(extension: &str) -> (r: Option<String>)
    ensures
        trimmed(extension@).len() == 0 ==> r is None,
        trimmed(extension@).len() > 0 && trimmed(extension@)[0] == '.' ==> (r matches Some(v) && v@
            == ascii_lower_seq(trimmed(extension@))),
        trimmed(extension@).len() > 0 && trimmed(extension@)[0] != '.' ==> (r matches Some(v) && v@
            == seq!['.'] + ascii_lower_seq(trimmed(extension@))),
        match r {
            Some(v) => normalized_rule_extension_spec(extension@) == Some(v@),
            None => normalized_rule_extension_spec(extension@) is None,
        },
{
    let n = extension.unicode_len();
    let mut lo: usize = 0;
    while lo < n && is_whitespace(extension.get_char(lo))
        invariant
            lo <= n,
            n == extension@.len(),
            forall|i: int| 0 <= i < lo ==> is_whitespace_spec(#[trigger] extension@[i]),
        decreases n - lo,
    {
        lo += 1;
    }
    let mut hi: usize = n;
    while hi > lo && is_whitespace(extension.get_char(hi - 1))
        invariant
            lo <= hi <= n,
            n == extension@.len(),
            forall|i: int| hi <= i < n ==> is_whitespace_spec(#[trigger] extension@[i]),
        decreases hi,
    {
        hi -= 1;
    }
    proof {
        if lo == hi {
            assert forall|i: int| hi <= i < n implies is_whitespace_spec(#[trigger] extension@[i]) by {}
        }
        assert(is_trim_of(extension@, lo as int, hi as int));
        lemma_trim_unique(extension@, lo as int, hi as int);
    }
    if lo == hi {
        return None;
    }
    let trimmed_text = extension.substring_char(lo, hi);
    if trimmed_text.get_char(0) == '.' {
        let with_dot = dotted_lowercase(trimmed_text.substring_char(1, hi - lo));
        // The leading dot is already there and stays a dot.
        assert(with_dot@ =~= ascii_lower_seq(trimmed_text@));
        Some(with_dot)
    } else {
        Some(dotted_lowercase(trimmed_text))
    }
}

/// The extension `std::path::Path::extension` finds in a path: the part of
/// the final component after its last `.`, None when there is no final
/// component, no `.`, or only a leading `.`.
pub uninterp spec fn path_extension(path: Seq<char>) -> Option<Seq<char>>;

/// Calls `std::path::Path::extension` on `filename` and converts the result
/// back to text (which cannot fail for a path built from text). The
/// contract claims only that the result is the one `path_extension` names
/// for this text; how a path is cut into components is left unsaid.
#[verifier::external_body]
fn file_extension(filename: &str) -> (ext: Option<&str>)
    ensures
        match ext {
            Some(e) => path_extension(filename@) == Some(e@),
            None => path_extension(filename@) is None,
        },
{
    std::path::Path::new(filename).extension().and_then(|e| e.to_str())
}

/// The file's extension as destination rules compare it: a dot followed by
/// the extension in lower case; None when the file has no extension.
pub fn normalized_filename_extension(filename: &str) -> (r: Option<String>)
    ensures
        match path_extension(filename@) {
            Some(e) => r matches Some(v) && v@ == seq!['.'] + ascii_lower_seq(e),
            None => r is None,
        },
{
    match file_extension(filename) {
        Some(e) => Some(dotted_lowercase(e)),
        None => None,
    }
}

/// The actions a transfer row offers.
#[derive(Debug, Clone, Copy, PartialEq, Eq, Structural)]
pub struct TransferAvailableActions {
    pub pause: bool,
    pub resume: bool,
    pub cancel: bool,
    pub delete_artifact: bool,
}

/// The pause/resume button of a transfer row (pause wins when both are
/// offered) and whether it has a remove button.
pub fn transfer_row_controls(actions: TransferAvailableActions) -> (r: (Option<RowToggle>, bool))
    ensures
        r.0 == (if actions.pause {
            Some(RowToggle::Pause)
        } else if actions.resume {
            Some(RowToggle::Resume)
        } else {
            None
        }),
        r.1 == actions.delete_artifact,
{
    let toggle = if actions.pause {
        Some(RowToggle::Pause)
    } else if actions.resume {
        Some(RowToggle::Resume)
    } else {
        None
    };
    (toggle, actions.delete_artifact)
}

/// A rule that sends files with some extensions to a directory, and shows
/// them with an icon. The directory is the target path written out as text.
pub struct DestinationRule {
    pub id: String,
    pub label: String,
    pub enabled: bool,
    pub target_dir: String,
    pub extensions: Vec<String>,
    pub icon_name: Option<String>,
}

/// The directory `std::path::Path::parent` gives for a path: None for a
/// root or an empty path.
pub uninterp spec fn path_parent(path: Seq<char>) -> Option<Seq<char>>;

/// Whether `std::path::Path` considers two paths equal (it compares their
/// components, so `a/b/` equals `a/b`).
pub uninterp spec fn path_eq(a: Seq<char>, b: Seq<char>) -> bool;

/// Calls `std::path::Path::parent` on `path` and converts the result back
/// to text (a prefix of valid text, so the conversion cannot fail). The
/// contract claims only that the result is the one `path_parent` names.
#[verifier::external_body]
fn parent_dir(path: &str) -> (dir: Option<&str>)
    ensures
        match dir {
            Some(d) => path_parent(path@) == Some(d@),
            None => path_parent(path@) is None,
        },
{
    std::path::Path::new(path).parent().and_then(|p| p.to_str())
}

/// Compares two paths with `std::path::Path`'s `==`; the contract claims
/// only that the answer is the one `path_eq` names.
#[verifier::external_body]
fn same_path(a: &str, b: &str) -> (r: bool)
    ensures
        r == path_eq(a@, b@),
{
    std::path::Path::new(a) == std::path::Path::new(b)
}

/// What `normalized_rule_extension` makes of a rule's extension.
pub open spec fn normalized_rule_extension_spec(extension: Seq<char>) -> Option<Seq<char>> {
    let t = trimmed(extension);
    if t.len() == 0 {
        None
    } else if t[0] == '.' {
        Some(ascii_lower_seq(t))
    } else {
        Some(seq!['.'] + ascii_lower_seq(t))
    }
}

/// Index of the first non-whitespace character at or after `k` (the
/// length when there is none).
spec fn skip_ws_from(s: Seq<char>, k: int) -> int
    decreases s.len() - k,
{
    if k >= s.len() || k < 0 {
        s.len() as int
    } else if !is_whitespace_spec(s[k]) {
        k
    } else {
        skip_ws_from(s, k + 1)
    }
}

/// Index just past the last non-whitespace character before `k` and at or
/// after `lo` (`lo` when there is none).
spec fn skip_ws_back(s: Seq<char>, lo: int, k: int) -> int
    decreases k - lo,
{
    if k <= lo {
        lo
    } else if !is_whitespace_spec(s[k - 1]) {
        k
    } else {
        skip_ws_back(s, lo, k - 1)
    }
}

proof fn lemma_skip_ws_from(s: Seq<char>, k: int)
    requires
        0 <= k <= s.len(),
    ensures
        k <= skip_ws_from(s, k) <= s.len(),
        forall|i: int| k <= i < skip_ws_from(s, k) ==> is_whitespace_spec(#[trigger] s[i]),
        skip_ws_from(s, k) < s.len() ==> !is_whitespace_spec(s[skip_ws_from(s, k)]),
    decreases s.len() - k,
{
    if k < s.len() && is_whitespace_spec(s[k]) {
        lemma_skip_ws_from(s, k + 1);
    }
}

proof fn lemma_skip_ws_back(s: Seq<char>, lo: int, k: int)
    requires
        0 <= lo <= k <= s.len(),
    ensures
        lo <= skip_ws_back(s, lo, k) <= k,
        forall|i: int| skip_ws_back(s, lo, k) <= i < k ==> is_whitespace_spec(#[trigger] s[i]),
        skip_ws_back(s, lo, k) > lo ==> !is_whitespace_spec(s[skip_ws_back(s, lo, k) - 1]),
    decreases k - lo,
{
    if k > lo && is_whitespace_spec(s[k - 1]) {
        lemma_skip_ws_back(s, lo, k - 1);
    }
}

/// Every text has a trimmed form.
proof fn lemma_trim_exists(s: Seq<char>) -> (r: (int, int))
    ensures
        is_trim_of(s, r.0, r.1),
        trimmed(s) == s.subrange(r.0, r.1),
{
    let lo = skip_ws_from(s, 0);
    lemma_skip_ws_from(s, 0);
    let hi = skip_ws_back(s, lo, s.len() as int);
    lemma_skip_ws_back(s, lo, s.len() as int);
    if lo == s.len() {
        assert(hi == lo);
    } else if hi == lo {
        assert(!is_whitespace_spec(s[lo]));
        assert(is_whitespace_spec(s[lo]));
    }
    assert(is_trim_of(s, lo, hi));
    lemma_trim_unique(s, lo, hi);
    (lo, hi)
}

/// A rule's extension is normalised to nothing exactly when it is all
/// whitespace; otherwise to text that begins with a dot and holds no ASCII
/// capital, and normalising that again gives it back unchanged.
pub proof fn lemma_rule_extension_normal_form(extension: Seq<char>)
    ensures
        (normalized_rule_extension_spec(extension) is None) == (forall|i: int| 0 <= i < extension.len()
            ==> is_whitespace_spec(#[trigger] extension[i])),
        normalized_rule_extension_spec(extension) matches Some(v) ==> {
            &&& v.len() > 0
            &&& v[0] == '.'
            &&& forall|i: int| 0 <= i < v.len() ==> !('A' <= #[trigger] v[i] <= 'Z')
            &&& normalized_rule_extension_spec(v) == Some(v)
        },
{
    let (lo, hi) = lemma_trim_exists(extension);
    let t = trimmed(extension);
    if t.len() == 0 {
        assert forall|i: int| 0 <= i < extension.len() implies is_whitespace_spec(#[trigger] extension[i]) by {
            if i < lo {
            } else {
                assert(i >= hi);
            }
        }
    } else {
        assert(!is_whitespace_spec(extension[lo]));
        let v = normalized_rule_extension_spec(extension)->0;
        assert(t[0] == extension[lo]);
        assert(t[t.len() - 1] == extension[hi - 1]);
        let lt = ascii_lower_seq(t);
        assert(!is_whitespace_spec(lt[lt.len() - 1]));
        if t[0] == '.' {
            assert(v == lt);
            assert(v[0] == '.');
        } else {
            assert(v == seq!['.'] + lt);
            assert(v[v.len() - 1] == lt[lt.len() - 1]);
        }
        assert forall|i: int| 0 <= i < v.len() implies !('A' <= #[trigger] v[i] <= 'Z') by {
            if t[0] != '.' && i > 0 {
                assert(v[i] == lt[i - 1]);
            }
        }
        assert(is_trim_of(v, 0, v.len() as int));
        lemma_trim_unique(v, 0, v.len() as int);
        assert(v.subrange(0, v.len() as int) =~= v);
        assert(ascii_lower_seq(v) =~= v);
    }
}

/// Rule `rule` applies to a file with normalised extension `ext` whose
/// directory is (`same_dir`) or is not the rule's directory.
pub open spec fn rule_applies_given(rule: DestinationRule, same_dir: bool, ext: Seq<char>) -> bool {
    &&& rule.enabled
    &&& same_dir
    &&& exists|k: int| 0 <= k < rule.extensions@.len() && normalized_rule_extension_spec(
        #[trigger] rule.extensions@[k]@,
    ) == Some(ext)
}

/// Rule `rule` applies to a file with normalised extension `ext` in
/// directory `dir`.
pub open spec fn rule_applies(rule: DestinationRule, dir: Seq<char>, ext: Seq<char>) -> bool {
    rule_applies_given(rule, path_eq(dir, rule.target_dir@), ext)
}

/// `r` is the index of the first rule that applies, when rule `i`'s
/// directory is the file's exactly when `same_dir[i]`; None if none does.
pub open spec fn first_rule_given(rules: Seq<DestinationRule>, same_dir: Seq<bool>, ext: Seq<char>, r: Option<usize>) -> bool {
    match r {
        Some(i) => i < rules.len() && rule_applies_given(rules[i as int], same_dir[i as int], ext) && forall|j: int|
            0 <= j < i ==> !rule_applies_given(#[trigger] rules[j], same_dir[j], ext),
        None => forall|j: int| 0 <= j < rules.len() ==> !rule_applies_given(#[trigger] rules[j], same_dir[j], ext),
    }
}

/// Index of the first rule that applies, if any.
pub open spec fn first_applying_rule(rules: Seq<DestinationRule>, dir: Seq<char>, ext: Seq<char>, r: Option<usize>) -> bool {
    match r {
        Some(i) => i < rules.len() && rule_applies(rules[i as int], dir, ext) && forall|j: int|
            0 <= j < i ==> !rule_applies(#[trigger] rules[j], dir, ext),
        None => forall|j: int| 0 <= j < rules.len() ==> !rule_applies(#[trigger] rules[j], dir, ext),
    }
}

fn rule_applies_exec(rule: &DestinationRule, same_dir: bool, ext: &String) -> (r: bool)
    ensures
        r == rule_applies_given(*rule, same_dir, ext@),
{
    if !rule.enabled || !same_dir {
        return false;
    }
    let n = rule.extensions.len();
    let mut k: usize = 0;
    while k < n
        invariant
            k <= n,
            n == rule.extensions@.len(),
            rule.enabled,
            same_dir,
            forall|t: int| 0 <= t < k ==> normalized_rule_extension_spec(#[trigger] rule.extensions@[t]@)
                != Some(ext@),
        decreases n - k,
    {
        let normalized = normalized_rule_extension(rule.extensions[k].as_str());
        match normalized {
            Some(v) => {
                if v == *ext {
                    assert(normalized_rule_extension_spec(rule.extensions@[k as int]@) == Some(ext@));
                    return true;
                }
            },
            None => {},
        }
        k += 1;
    }
    false
}

/// The first rule that applies to a file whose normalised extension is
/// `extension`, given for each rule whether its directory is the file's
/// directory (`same_dir[i]`): the first enabled rule in such a directory
/// that lists the extension (after normalising it: trimmed, lower-cased,
/// with a leading dot).
pub fn matching_rule_index(rules: &[DestinationRule], same_dir: &[bool], extension: &str) -> (r: Option<usize>)
    requires
        same_dir@.len() == rules@.len(),
    ensures
        first_rule_given(rules@, same_dir@, extension@, r),
{
    let ext = String::from_str(extension);
    let n = rules.len();
    let mut i: usize = 0;
    while i < n
        invariant
            i <= n,
            n == rules@.len(),
            same_dir@.len() == n,
            ext@ == extension@,
            forall|j: int| 0 <= j < i ==> !rule_applies_given(#[trigger] rules@[j], same_dir@[j], extension@),
        decreases n - i,
    {
        if rule_applies_exec(&rules[i], same_dir[i], &ext) {
            return Some(i);
        }
        i += 1;
    }
    None
}

/// The destination rule whose icon a transfer shows: none when rules are
/// off, when the destination has no parent directory or the file no
/// extension; otherwise the first enabled rule whose directory is the
/// destination's directory and which lists the file's extension (both
/// normalised: trimmed, lower-cased, with a leading dot).
pub fn destination_rule_for_transfer(
    rules_enabled: bool,
    rules: &[DestinationRule],
    destination: &str,
    filename: &str,
) -> (r: Option<usize>)
    ensures
        !rules_enabled ==> r is None,
        rules_enabled ==> match (path_parent(destination@), path_extension(filename@)) {
            (Some(dir), Some(e)) => first_applying_rule(rules@, dir, seq!['.'] + ascii_lower_seq(e), r),
            _ => r is None,
        },
{
    if !rules_enabled {
        return None;
    }
    let dir = match parent_dir(destination) {
        Some(d) => d,
        None => return None,
    };
    let ext = match normalized_filename_extension(filename) {
        Some(e) => e,
        None => return None,
    };
    let n = rules.len();
    let mut same_dir: Vec<bool> = Vec::new();
    let mut i: usize = 0;
    while i < n
        invariant
            i <= n,
            n == rules@.len(),
            same_dir@.len() == i,
            forall|j: int| 0 <= j < i ==> #[trigger] same_dir@[j] == path_eq(dir@, rules@[j].target_dir@),
        decreases n - i,
    {
        same_dir.push(same_path(dir, rules[i].target_dir.as_str()));
        i += 1;
    }
    let r = matching_rule_index(rules, &same_dir, ext.as_str());
    proof {
        assert forall|j: int| 0 <= j < n implies rule_applies(#[trigger] rules@[j], dir@, ext@)
            == rule_applies_given(rules@[j], same_dir@[j], ext@) by {
            assert(same_dir@[j] == path_eq(dir@, rules@[j].target_dir@));
        }
    }
    r
}

} // verus!
