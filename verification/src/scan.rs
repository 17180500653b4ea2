//! The line scanner: decides whether a line of text contains the marker
//! token and, if so, extracts the structured notice (position of the token
//! and the trimmed trailing message).
//!
//! Policy: the match is an exact, case-sensitive substring search for
//! `"TODO"`. Only the first occurrence in a line is reported, and a line
//! contributes at most one hit however many occurrences it holds.

use vstd::prelude::*;

verus! {

/// The marker token that a hit line must contain, as a sequence of
/// characters.
pub open spec fn token() -> Seq<char> {
    seq!['T', 'O', 'D', 'O']
}

/// The marker token occurs in `line` starting at character offset `k`.
pub open spec fn match_at(line: Seq<char>, k: int) -> bool {
    &&& 0 <= k
    &&& k + token().len() <= line.len()
    &&& forall|j: int| 0 <= j < token().len() ==> line[k + j] == token()[j]
}

/// The line contains the marker token somewhere.
pub open spec fn has_token(line: Seq<char>) -> bool {
    exists|k: int| match_at(line, k)
}

/// `k` is the offset of the first occurrence of the marker token in
/// `line`.
pub open spec fn is_first_match(line: Seq<char>, k: int) -> bool {
    &&& match_at(line, k)
    &&& forall|j: int| 0 <= j < k ==> !match_at(line, j)
}

/// The offset of the first occurrence of the marker token, meaningful
/// only when `has_token(line)` holds.
pub open spec fn first_match(line: Seq<char>) -> int {
    choose|k: int| is_first_match(line, k)
}

/// How much a single line contributes to the total count: one if it
/// contains the marker token, zero otherwise.
pub open spec fn line_hits(line: Seq<char>) -> nat {
    if has_token(line) {
        1nat
    } else {
        0nat
    }
}

/// The characters of the Unicode `White_Space` set, the ones that are
/// stripped from both ends of the message.
pub open spec fn is_space(c: char) -> bool {
    ||| c == '\t'
    ||| c == '\n'
    ||| c == '\u{b}'
    ||| c == '\u{c}'
    ||| c == '\r'
    ||| c == ' '
    ||| c == '\u{85}'
    ||| c == '\u{a0}'
    ||| c == '\u{1680}'
    ||| c == '\u{2000}'
    ||| c == '\u{2001}'
    ||| c == '\u{2002}'
    ||| c == '\u{2003}'
    ||| c == '\u{2004}'
    ||| c == '\u{2005}'
    ||| c == '\u{2006}'
    ||| c == '\u{2007}'
    ||| c == '\u{2008}'
    ||| c == '\u{2009}'
    ||| c == '\u{200a}'
    ||| c == '\u{2028}'
    ||| c == '\u{2029}'
    ||| c == '\u{202f}'
    ||| c == '\u{205f}'
    ||| c == '\u{3000}'
}

/// `s` with its leading whitespace removed.
pub open spec fn trim_front(s: Seq<char>) -> Seq<char>
    decreases s.len(),
{
    if s.len() > 0 && is_space(s[0]) {
        trim_front(s.drop_first())
    } else {
        s
    }
}

/// `s` with its trailing whitespace removed.
pub open spec fn trim_back(s: Seq<char>) -> Seq<char>
    decreases s.len(),
{
    if s.len() > 0 && is_space(s.last()) {
        trim_back(s.drop_last())
    } else {
        s
    }
}

/// `s` with whitespace removed from both ends.
pub open spec fn trimmed(s: Seq<char>) -> Seq<char> {
    trim_back(trim_front(s))
}

fn is_space_char(c: char) -> (r: bool)
    ensures
        r == is_space(c),
{
    c == '\t' || c == '\n' || c == '\u{b}' || c == '\u{c}' || c == '\r' || c == ' '
        || c == '\u{85}' || c == '\u{a0}' || c == '\u{1680}' || c == '\u{2000}'
        || c == '\u{2001}' || c == '\u{2002}' || c == '\u{2003}' || c == '\u{2004}'
        || c == '\u{2005}' || c == '\u{2006}' || c == '\u{2007}' || c == '\u{2008}'
        || c == '\u{2009}' || c == '\u{200a}' || c == '\u{2028}' || c == '\u{2029}'
        || c == '\u{202f}' || c == '\u{205f}' || c == '\u{3000}'
}

proof fn lemma_trim_front_is_suffix(s: Seq<char>, i: int)
    requires
        0 <= i <= s.len(),
        forall|k: int| 0 <= k < i ==> is_space(s[k]),
        i == s.len() || !is_space(s[i]),
    ensures
        trim_front(s) == s.subrange(i, s.len() as int),
    decreases i,
{
    if i == 0 {
        assert(s.subrange(0, s.len() as int) =~= s);
    } else {
        assert(is_space(s[0]));
        let t = s.drop_first();
        assert(forall|k: int| 0 <= k < i - 1 ==> is_space(t[k]));
        lemma_trim_front_is_suffix(t, i - 1);
        assert(t.subrange(i - 1, t.len() as int) =~= s.subrange(i, s.len() as int));
    }
}

proof fn lemma_trim_back_is_prefix(s: Seq<char>, j: int)
    requires
        0 <= j <= s.len(),
        forall|k: int| j <= k < s.len() ==> is_space(s[k]),
        j == 0 || !is_space(s[j - 1]),
    ensures
        trim_back(s) == s.subrange(0, j),
    decreases s.len(),
{
    if j == s.len() {
        if s.len() > 0 {
            assert(!is_space(s.last()));
        }
        assert(s.subrange(0, j) =~= s);
    } else {
        assert(is_space(s[s.len() - 1]));
        let t = s.drop_last();
        assert(forall|k: int| j <= k < t.len() ==> is_space(t[k]));
        lemma_trim_back_is_prefix(t, j);
        assert(t.subrange(0, j) =~= s.subrange(0, j));
    }
}

/// Removes the whitespace at both ends of `s`.
fn trim_str<'a>(s: &'a str) -> (r: &'a str)
    ensures
        r@ == trimmed(s@),
{
    let len = s.unicode_len();
    let mut start: usize = 0;
    while start < len && is_space_char(s.get_char(start))
        invariant
            len == s@.len(),
            0 <= start <= len,
            forall|k: int| 0 <= k < start ==> is_space(s@[k]),
        decreases len - start,
    {
        start = start + 1;
    }
    let mut end: usize = len;
    while end > start && is_space_char(s.get_char(end - 1))
        invariant
            len == s@.len(),
            start <= end <= len,
            forall|k: int| end <= k < len ==> is_space(s@[k]),
        decreases end,
    {
        end = end - 1;
    }
    proof {
        lemma_trim_front_is_suffix(s@, start as int);
        let t = s@.subrange(start as int, len as int);
        assert(forall|k: int| end - start <= k < t.len() ==> is_space(t[k]));
        lemma_trim_back_is_prefix(t, end - start);
        assert(t.subrange(0, end - start) =~= s@.subrange(start as int, end as int));
    }
    s.substring_char(start, end)
}

/// Finds the first occurrence of the marker token in `line`, as a
/// character offset.
pub fn find_token(line: &str) -> (r: Option<usize>)
    ensures
        match r {
            Some(k) => is_first_match(line@, k as int),
            None => !has_token(line@),
        },
{
    let len = line.unicode_len();
    if len < 4 {
        return None;
    }
    let mut i: usize = 0;
    while i <= len - 4
        invariant
            len == line@.len(),
            4 <= len,
            0 <= i <= len - 3,
            forall|j: int| 0 <= j < i ==> !match_at(line@, j),
        decreases len - i,
    {
        if line.get_char(i) == 'T' && line.get_char(i + 1) == 'O' && line.get_char(i + 2) == 'D'
            && line.get_char(i + 3) == 'O' {
            proof {
                assert forall|j: int| 0 <= j < token().len() implies line@[i + j] == token()[j]
                by {
                    assert(token()[0] == 'T' && token()[1] == 'O' && token()[2] == 'D'
                        && token()[3] == 'O');
                }
            }
            return Some(i);
        }
        proof {
            if match_at(line@, i as int) {
                assert(line@[i + 0] == token()[0] && line@[i + 1] == token()[1]
                    && line@[i + 2] == token()[2] && line@[i + 3] == token()[3]);
                assert(token()[0] == 'T' && token()[1] == 'O' && token()[2] == 'D'
                    && token()[3] == 'O');
            }
        }
        i = i + 1;
    }
    proof {
        if has_token(line@) {
            let k = choose|k: int| match_at(line@, k);
            assert(k + token().len() <= len);
            assert(!match_at(line@, k));
        }
    }
    None
}

/// One structured report of a hit: where the marker token was found and
/// what followed it.
///
/// `line` is 1-based; `col` is the 1-based column of the character
/// immediately after the first occurrence of the token; `message` is the
/// remainder of the line after the token, with whitespace trimmed from
/// both ends.
pub struct Notice {
    pub path: String,
    pub line: usize,
    pub col: usize,
    pub message: String,
}

/// The mathematical content of a [`Notice`].
#[verifier::ext_equal]
pub ghost struct NoticeModel {
    pub path: Seq<char>,
    pub line: nat,
    pub col: nat,
    pub message: Seq<char>,
}

impl View for Notice {
    type V = NoticeModel;

    open spec fn view(&self) -> NoticeModel {
        NoticeModel {
            path: self.path@,
            line: self.line as nat,
            col: self.col as nat,
            message: self.message@,
        }
    }
}

impl DeepView for Notice {
    type V = NoticeModel;

    open spec fn deep_view(&self) -> NoticeModel {
        self.view()
    }
}

/// The notice owed for the line `line` of file `path` (0-based line
/// number `lineno`) when the first occurrence of the token is at offset
/// `k`.
pub open spec fn notice_for(path: Seq<char>, lineno: int, line: Seq<char>, k: int) -> NoticeModel {
    NoticeModel {
        path: path,
        line: (lineno + 1) as nat,
        col: (k + token().len() + 1) as nat,
        message: trimmed(line.subrange(k + token().len(), line.len() as int)),
    }
}

/// All notices owed for one line: one if it holds the token, none
/// otherwise.
pub open spec fn line_notices(path: Seq<char>, lineno: int, line: Seq<char>) -> Seq<NoticeModel> {
    if has_token(line) {
        seq![notice_for(path, lineno, line, first_match(line))]
    } else {
        Seq::empty()
    }
}

/// A line that holds the token somewhere holds it at a first offset.
pub proof fn lemma_first_match_exists(line: Seq<char>, k: int)
    requires
        match_at(line, k),
    ensures
        is_first_match(line, first_match(line)),
    decreases k,
{
    if forall|j: int| 0 <= j < k ==> !match_at(line, j) {
        assert(is_first_match(line, k));
    } else {
        let j = choose|j: int| 0 <= j < k && match_at(line, j);
        lemma_first_match_exists(line, j);
    }
    let f = first_match(line);
    assert(is_first_match(line, f));
}

/// The first offset of the token is unique.
pub proof fn lemma_first_match_unique(line: Seq<char>, k1: int, k2: int)
    requires
        is_first_match(line, k1),
        is_first_match(line, k2),
    ensures
        k1 == k2,
{
}

/// However many occurrences of the token a line holds, it counts as
/// exactly one hit.
pub proof fn lemma_line_counted_once(line: Seq<char>, k1: int, k2: int)
    requires
        match_at(line, k1),
        match_at(line, k2),
        k1 != k2,
    ensures
        line_hits(line) == 1,
{
}

/// Scans one line for the marker token. Returns the structured notice
/// for the first occurrence, or `None` when the line holds no token.
pub fn scan_line(path: &str, lineno: usize, line: &str) -> (r: Option<Notice>)
    requires
        lineno < usize::MAX,
        line@.len() < usize::MAX,
    ensures
        r is Some <==> has_token(line@),
        r matches Some(n) ==> n@ == notice_for(path@, lineno as int, line@, first_match(line@)),
{
    match find_token(line) {
        None => None,
        Some(k) => {
            let len = line.unicode_len();
            let rest = line.substring_char(k + 4, len);
            let msg = trim_str(rest);
            let n = Notice {
                path: path.to_owned(),
                line: lineno + 1,
                col: k + 4 + 1,
                message: msg.to_owned(),
            };
            proof {
                lemma_first_match_exists(line@, k as int);
                lemma_first_match_unique(line@, k as int, first_match(line@));
                assert(n@ =~= notice_for(path@, lineno as int, line@, k as int));
            }
            Some(n)
        },
    }
}

/// Scans one line and returns its contribution to the count: one when
/// the line holds the marker token, zero otherwise. The `path` and
/// `lineno` arguments only locate the line for reporting and do not
/// change the result.
pub fn process_line(path: &str, lineno: usize, line: &str) -> (count: usize)
    ensures
        count == line_hits(line@),
        count <= 1,
{
    let _ = path;
    let _ = lineno;
    match find_token(line) {
        Some(_) => 1,
        None => 0,
    }
}

} // verus!
