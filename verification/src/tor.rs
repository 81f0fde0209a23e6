//! The Tor control-port protocol as far as the chat uses it: the reply
//! grammar, the key/value fields of replies, the choice of authentication,
//! the SAFECOOKIE exchange and the commands sent.
use vstd::prelude::*;
use crate::crypto::{hex_decode, hex_decoded, hex_encode, hex_lower, hmac_sha256, hmac_sha256_tag, thread_random_bytes};
use crate::order::views;
use crate::error::{Failure, OnionChatError};
use crate::text::{
    char_is_whitespace, chars_of, concat, copy_bytes, decimal, decimal_string, is_whitespace_char, string_from_utf8, string_of,
};
use vstd::utf8::{decode_utf8, encode_utf8, is_char_boundary};

verus! {

/// The state of the white-space splitter: the words so far, the word being read.
pub struct WordScan {
    pub words: Seq<Seq<char>>,
    pub current: Seq<char>,
}

pub open spec fn word_step(st: WordScan, c: char) -> WordScan {
    if is_whitespace_char(c) {
        if st.current.len() > 0 {
            WordScan { words: st.words.push(st.current), current: Seq::empty() }
        } else {
            st
        }
    } else {
        WordScan { words: st.words, current: st.current.push(c) }
    }
}

pub open spec fn word_scan(s: Seq<char>) -> WordScan
    decreases s.len(),
{
    if s.len() == 0 {
        WordScan { words: Seq::empty(), current: Seq::empty() }
    } else {
        word_step(word_scan(s.drop_last()), s.last())
    }
}

/// `str::split_whitespace`: the maximal runs of non-white-space characters.
pub open spec fn words(s: Seq<char>) -> Seq<Seq<char>> {
    let st = word_scan(s);
    if st.current.len() > 0 {
        st.words.push(st.current)
    } else {
        st.words
    }
}

/// The white-space separated words of `s`.
pub fn split_words(s: &str) -> (r: Vec<String>)
    ensures
        views(r@) == words(s@),
{
    let v = chars_of(s);
    let mut out: Vec<String> = Vec::new();
    let mut cur: Vec<char> = Vec::new();
    let mut i: usize = 0;
    assert(v@.take(0) =~= Seq::<char>::empty());
    assert(views(out@) =~= Seq::<Seq<char>>::empty());
    assert(cur@ =~= Seq::<char>::empty());
    while i < v.len()
        invariant
            0 <= i <= v.len(),
            word_scan(v@.take(i as int)) == (WordScan { words: views(out@), current: cur@ }),
        decreases v.len() - i,
    {
        let c = v[i];
        proof {
            assert(v@.take(i + 1).drop_last() =~= v@.take(i as int));
        }
        if char_is_whitespace(c) {
            if cur.len() > 0 {
                let w = string_of(&cur);
                let ghost prev = views(out@);
                out.push(w);
                assert(views(out@) =~= prev.push(cur@));
                cur = Vec::new();
                assert(cur@ =~= Seq::<char>::empty());
            }
        } else {
            cur.push(c);
        }
        i = i + 1;
    }
    assert(v@.take(i as int) =~= v@);
    if cur.len() > 0 {
        let w = string_of(&cur);
        let ghost prev = views(out@);
        out.push(w);
        assert(views(out@) =~= prev.push(cur@));
    }
    out
}

/// A word: at least one character, none of them white space.
pub open spec fn is_word(w: Seq<char>) -> bool {
    w.len() > 0 && forall|k: int| 0 <= k < w.len() ==> !is_whitespace_char(#[trigger] w[k])
}

proof fn lemma_word_scan_words(s: Seq<char>)
    ensures
        forall|i: int| 0 <= i < word_scan(s).words.len() ==> is_word(#[trigger] word_scan(s).words[i]),
        forall|k: int| 0 <= k < word_scan(s).current.len() ==> !is_whitespace_char(
            #[trigger] word_scan(s).current[k],
        ),
    decreases s.len(),
{
    if s.len() > 0 {
        lemma_word_scan_words(s.drop_last());
        let st = word_scan(s.drop_last());
        let c = s.last();
        if !is_whitespace_char(c) {
            assert forall|k: int| 0 <= k < st.current.push(c).len() implies !is_whitespace_char(
                #[trigger] st.current.push(c)[k],
            ) by {
                if k < st.current.len() {
                    assert(st.current.push(c)[k] == st.current[k]);
                }
            }
        }
    }
}

/// Splitting at white space gives words: none is empty and none holds
/// white space.
pub proof fn law_words_are_words(s: Seq<char>)
    ensures
        forall|i: int| 0 <= i < words(s).len() ==> is_word(#[trigger] words(s)[i]),
{
    lemma_word_scan_words(s);
}

/// `i` is the first position of `sep` in `s`.
pub open spec fn is_first_sep(s: Seq<char>, sep: char, i: int) -> bool {
    0 <= i < s.len() && s[i] == sep && forall|j: int| 0 <= j < i ==> s[j] != sep
}

/// `str::split_once`: the text before and after the first `sep`, if any.
pub open spec fn split_at_first(s: Seq<char>, sep: char) -> Option<(Seq<char>, Seq<char>)> {
    if exists|i: int| is_first_sep(s, sep, i) {
        let k = choose|i: int| is_first_sep(s, sep, i);
        Some((s.take(k), s.skip(k + 1)))
    } else {
        None
    }
}

/// The text before and after the first `sep` in `v`, if any.
pub fn split_once_at(v: &Vec<char>, sep: char) -> (r: Option<(Vec<char>, Vec<char>)>)
    ensures
        match r {
            Some((a, b)) => split_at_first(v@, sep) == Some((a@, b@)),
            None => split_at_first(v@, sep) is None,
        },
{
    let mut i: usize = 0;
    while i < v.len()
        invariant
            0 <= i <= v.len(),
            forall|j: int| 0 <= j < i ==> v@[j] != sep,
        decreases v.len() - i,
    {
        if v[i] == sep {
            proof {
                assert(is_first_sep(v@, sep, i as int));
                let k = choose|k: int| is_first_sep(v@, sep, k);
                assert(k == i);
            }
            let a = crate::text::copy_range(v, 0, i);
            let b = crate::text::copy_range(v, i + 1, v.len());
            assert(a@ =~= v@.take(i as int));
            assert(b@ =~= v@.skip(i + 1));
            return Some((a, b));
        }
        i = i + 1;
    }
    assert(!exists|k: int| is_first_sep(v@, sep, k));
    None
}

/// Leading `"` characters dropped.
pub open spec fn drop_leading_quotes(s: Seq<char>) -> Seq<char>
    decreases s.len(),
{
    if s.len() > 0 && s[0] == '"' {
        drop_leading_quotes(s.drop_first())
    } else {
        s
    }
}

/// Trailing `"` characters dropped.
pub open spec fn drop_trailing_quotes(s: Seq<char>) -> Seq<char>
    decreases s.len(),
{
    if s.len() > 0 && s.last() == '"' {
        drop_trailing_quotes(s.drop_last())
    } else {
        s
    }
}

/// `str::trim_matches('"')`: every leading and trailing `"` removed.
pub open spec fn trim_quotes(s: Seq<char>) -> Seq<char> {
    drop_trailing_quotes(drop_leading_quotes(s))
}

/// `v` without its leading and trailing `"` characters.
pub fn trim_quote_chars(v: &Vec<char>) -> (r: Vec<char>)
    ensures
        r@ == trim_quotes(v@),
{
    let n = v.len();
    let mut i: usize = 0;
    assert(v@.skip(0) =~= v@);
    while i < n && v[i] == '"'
        invariant
            0 <= i <= n == v@.len(),
            drop_leading_quotes(v@) == drop_leading_quotes(v@.skip(i as int)),
        decreases n - i,
    {
        assert(v@.skip(i as int).drop_first() =~= v@.skip(i + 1));
        i = i + 1;
    }
    let ghost rest = v@.skip(i as int);
    assert(drop_leading_quotes(rest) == rest);
    let mut j: usize = n;
    assert(rest.take(rest.len() as int) =~= rest);
    while j > i && v[j - 1] == '"'
        invariant
            0 <= i <= j <= n == v@.len(),
            rest == v@.skip(i as int),
            drop_trailing_quotes(rest) == drop_trailing_quotes(rest.take(j - i)),
        decreases j,
    {
        assert(rest[j - i - 1] == v@[j - 1]);
        assert(rest.take(j - i).drop_last() =~= rest.take(j - i - 1));
        j = j - 1;
    }
    assert(drop_trailing_quotes(rest.take(j - i)) == rest.take(j - i));
    assert(rest.take(j - i) =~= v@.subrange(i as int, j as int));
    crate::text::copy_range(v, i, j)
}


/// The state of the quote-aware splitter.
pub struct QuoteScan {
    pub fields: Seq<Seq<char>>,
    pub current: Seq<char>,
    pub in_quotes: bool,
    pub escaped: bool,
}

/// One character of the quote-aware splitter: inside quotes a backslash
/// escapes the next character (it is dropped, the next is kept); a quote
/// toggles quoting and is kept; white space outside quotes ends a field;
/// everything else is kept.
pub open spec fn quote_step(st: QuoteScan, c: char) -> QuoteScan {
    if st.escaped {
        QuoteScan { current: st.current.push(c), escaped: false, ..st }
    } else if c == '\\' && st.in_quotes {
        QuoteScan { escaped: true, ..st }
    } else if c == '"' {
        QuoteScan { in_quotes: !st.in_quotes, current: st.current.push(c), ..st }
    } else if is_whitespace_char(c) && !st.in_quotes {
        if st.current.len() > 0 {
            QuoteScan { fields: st.fields.push(st.current), current: Seq::empty(), ..st }
        } else {
            st
        }
    } else {
        QuoteScan { current: st.current.push(c), ..st }
    }
}

pub open spec fn quote_scan(s: Seq<char>) -> QuoteScan
    decreases s.len(),
{
    if s.len() == 0 {
        QuoteScan { fields: Seq::empty(), current: Seq::empty(), in_quotes: false, escaped: false }
    } else {
        quote_step(quote_scan(s.drop_last()), s.last())
    }
}

/// The fields of a line split at white space outside double quotes.
pub open spec fn quoted_fields(s: Seq<char>) -> Seq<Seq<char>> {
    let st = quote_scan(s);
    if st.current.len() > 0 {
        st.fields.push(st.current)
    } else {
        st.fields
    }
}

proof fn lemma_quote_scan_fields(s: Seq<char>)
    ensures
        forall|i: int| 0 <= i < quote_scan(s).fields.len() ==> (#[trigger] quote_scan(s).fields[i]).len() > 0,
    decreases s.len(),
{
    if s.len() > 0 {
        lemma_quote_scan_fields(s.drop_last());
        let st = quote_scan(s.drop_last());
        let nf = quote_scan(s).fields;
        assert(nf == st.fields || (st.current.len() > 0 && nf == st.fields.push(st.current)));
        assert forall|i: int| 0 <= i < nf.len() implies (#[trigger] nf[i]).len() > 0 by {
            if i < st.fields.len() {
                assert(nf[i] == st.fields[i]);
            }
        }
    }
}

/// No field of a split line is empty.
pub proof fn law_quoted_fields_nonempty(s: Seq<char>)
    ensures
        forall|i: int| 0 <= i < quoted_fields(s).len() ==> (#[trigger] quoted_fields(s)[i]).len() > 0,
{
    lemma_quote_scan_fields(s);
}

/// Splits a line at white space outside double quotes.
pub fn split_quoted_fields(input: &str) -> (r: Vec<String>)
    ensures
        views(r@) == quoted_fields(input@),
{
    let v = chars_of(input);
    let mut parts: Vec<String> = Vec::new();
    let mut current: Vec<char> = Vec::new();
    let mut in_quotes = false;
    let mut escaped = false;
    let mut i: usize = 0;
    assert(v@.take(0) =~= Seq::<char>::empty());
    assert(views(parts@) =~= Seq::<Seq<char>>::empty());
    assert(current@ =~= Seq::<char>::empty());
    while i < v.len()
        invariant
            0 <= i <= v.len(),
            quote_scan(v@.take(i as int)) == (QuoteScan {
                fields: views(parts@),
                current: current@,
                in_quotes,
                escaped,
            }),
        decreases v.len() - i,
    {
        let ch = v[i];
        proof {
            assert(v@.take(i + 1).drop_last() =~= v@.take(i as int));
        }
        if escaped {
            current.push(ch);
            escaped = false;
        } else if ch == '\\' && in_quotes {
            escaped = true;
        } else if ch == '"' {
            in_quotes = !in_quotes;
            current.push(ch);
        } else if char_is_whitespace(ch) && !in_quotes {
            if current.len() > 0 {
                let w = string_of(&current);
                let ghost prev = views(parts@);
                parts.push(w);
                assert(views(parts@) =~= prev.push(current@));
                current = Vec::new();
                assert(current@ =~= Seq::<char>::empty());
            }
        } else {
            current.push(ch);
        }
        i = i + 1;
    }
    assert(v@.take(i as int) =~= v@);
    if current.len() > 0 {
        let w = string_of(&current);
        let ghost prev = views(parts@);
        parts.push(w);
        assert(views(parts@) =~= prev.push(current@));
    }
    parts
}

/// The map that a list of key/value pairs builds when a later pair
/// replaces an earlier one with the same key.
pub open spec fn assoc_map(pairs: Seq<(Seq<char>, Seq<char>)>) -> Map<Seq<char>, Seq<char>>
    decreases pairs.len(),
{
    if pairs.len() == 0 {
        Map::empty()
    } else {
        assoc_map(pairs.drop_last()).insert(pairs.last().0, pairs.last().1)
    }
}

/// The text of each key/value pair.
pub open spec fn pair_views(s: Seq<(String, String)>) -> Seq<(Seq<char>, Seq<char>)> {
    s.map_values(|p: (String, String)| (p.0@, p.1@))
}

/// The key/value fields of a control-port reply; a later field replaces an
/// earlier one with the same key.
pub struct ReplyValues {
    pub entries: Vec<(String, String)>,
}

impl View for ReplyValues {
    type V = Map<Seq<char>, Seq<char>>;

    open spec fn view(&self) -> Map<Seq<char>, Seq<char>> {
        assoc_map(pair_views(self.entries@))
    }
}

proof fn lemma_assoc_map_last(pairs: Seq<(Seq<char>, Seq<char>)>, key: Seq<char>, j: int)
    requires
        0 <= j <= pairs.len(),
        forall|k: int| j <= k < pairs.len() ==> (#[trigger] pairs[k]).0 != key,
    ensures
        assoc_map(pairs).contains_key(key) == assoc_map(pairs.take(j)).contains_key(key),
        assoc_map(pairs).contains_key(key) ==> assoc_map(pairs)[key] == assoc_map(pairs.take(j))[key],
    decreases pairs.len(),
{
    if j == pairs.len() {
        assert(pairs.take(j) =~= pairs);
    } else {
        let d = pairs.drop_last();
        assert(pairs.last() == pairs[pairs.len() - 1]);
        assert forall|k: int| j <= k < d.len() implies (#[trigger] d[k]).0 != key by {
            assert(d[k] == pairs[k]);
        }
        lemma_assoc_map_last(d, key, j);
        assert(d.take(j) =~= pairs.take(j));
    }
}

impl ReplyValues {
    /// The value of the field `key`, if the reply has one.
    pub fn get(&self, key: &str) -> (r: Option<String>)
        ensures
            match r {
                Some(v) => self@.contains_key(key@) && self@[key@] == v@,
                None => !self@.contains_key(key@),
            },
    {
        let wanted = key.to_owned();
        let ghost ps = pair_views(self.entries@);
        let mut j: usize = self.entries.len();
        while j > 0
            invariant
                0 <= j <= self.entries.len(),
                ps == pair_views(self.entries@),
                wanted@ == key@,
                forall|k: int| j <= k < ps.len() ==> (#[trigger] ps[k]).0 != key@,
            decreases j,
        {
            if self.entries[j - 1].0 == wanted {
                proof {
                    lemma_assoc_map_last(ps, key@, j as int);
                    assert(ps.take(j as int).drop_last() =~= ps.take(j - 1));
                    assert(ps.take(j as int).last() == ps[j - 1]);
                }
                return Some(self.entries[j - 1].1.clone());
            }
            j = j - 1;
        }
        proof {
            lemma_assoc_map_last(ps, key@, 0);
            assert(ps.take(0) =~= Seq::<(Seq<char>, Seq<char>)>::empty());
        }
        None
    }
}

/// The key/value pairs of `key=value` fields; the value loses its
/// surrounding double quotes. Fields without `=` are skipped.
pub open spec fn quoted_pairs(fields: Seq<Seq<char>>) -> Seq<(Seq<char>, Seq<char>)>
    decreases fields.len(),
{
    if fields.len() == 0 {
        Seq::empty()
    } else {
        let r = quoted_pairs(fields.drop_last());
        match split_at_first(fields.last(), '=') {
            Some((k, v)) => r.push((k, trim_quotes(v))),
            None => r,
        }
    }
}

/// The key/value pairs of `key=value` words; other words are skipped.
pub open spec fn word_pairs(ws: Seq<Seq<char>>) -> Seq<(Seq<char>, Seq<char>)>
    decreases ws.len(),
{
    if ws.len() == 0 {
        Seq::empty()
    } else {
        let r = word_pairs(ws.drop_last());
        match split_at_first(ws.last(), '=') {
            Some(kv) => r.push(kv),
            None => r,
        }
    }
}

/// The key/value pairs of the words of every reply line, in order.
pub open spec fn reply_pairs(lines: Seq<Seq<char>>) -> Seq<(Seq<char>, Seq<char>)>
    decreases lines.len(),
{
    if lines.len() == 0 {
        Seq::empty()
    } else {
        reply_pairs(lines.drop_last()) + word_pairs(words(lines.last()))
    }
}

/// The `key=value` attributes of a reply line such as `AUTH METHODS=...`;
/// quoted values lose their quotes, a later key replaces an earlier one.
pub fn parse_kv_pairs(line: &str) -> (r: ReplyValues)
    ensures
        pair_views(r.entries@) == quoted_pairs(quoted_fields(line@)),
        r@ == assoc_map(quoted_pairs(quoted_fields(line@))),
{
    let fields = split_quoted_fields(line);
    let ghost fs = views(fields@);
    let mut entries: Vec<(String, String)> = Vec::new();
    let mut i: usize = 0;
    assert(fs.take(0) =~= Seq::<Seq<char>>::empty());
    assert(pair_views(entries@) =~= Seq::<(Seq<char>, Seq<char>)>::empty());
    while i < fields.len()
        invariant
            0 <= i <= fields.len(),
            fs == views(fields@),
            pair_views(entries@) == quoted_pairs(fs.take(i as int)),
        decreases fields.len() - i,
    {
        let f = chars_of(fields[i].as_str());
        proof {
            assert(fs.take(i + 1).drop_last() =~= fs.take(i as int));
            assert(fs.take(i + 1).last() == f@);
        }
        match split_once_at(&f, '=') {
            Some((k, v)) => {
                let tv = trim_quote_chars(&v);
                let ghost prev = pair_views(entries@);
                entries.push((string_of(&k), string_of(&tv)));
                assert(pair_views(entries@) =~= prev.push((k@, tv@)));
            },
            None => {},
        }
        i = i + 1;
    }
    assert(fs.take(i as int) =~= fs);
    ReplyValues { entries }
}

/// Every `key=value` word of the reply lines; a later key replaces an
/// earlier one.
pub fn flatten_reply(lines: &Vec<String>) -> (r: ReplyValues)
    ensures
        pair_views(r.entries@) == reply_pairs(views(lines@)),
        r@ == assoc_map(reply_pairs(views(lines@))),
{
    let ghost ls = views(lines@);
    let mut entries: Vec<(String, String)> = Vec::new();
    let mut i: usize = 0;
    assert(ls.take(0) =~= Seq::<Seq<char>>::empty());
    assert(pair_views(entries@) =~= Seq::<(Seq<char>, Seq<char>)>::empty());
    while i < lines.len()
        invariant
            0 <= i <= lines.len(),
            ls == views(lines@),
            pair_views(entries@) == reply_pairs(ls.take(i as int)),
        decreases lines.len() - i,
    {
        let ws = split_words(lines[i].as_str());
        let ghost base = pair_views(entries@);
        let ghost wv = views(ws@);
        let mut k: usize = 0;
        assert(wv.take(0) =~= Seq::<Seq<char>>::empty());
        assert(base + word_pairs(wv.take(0)) =~= base);
        while k < ws.len()
            invariant
                0 <= k <= ws.len(),
                wv == views(ws@),
                pair_views(entries@) == base + word_pairs(wv.take(k as int)),
            decreases ws.len() - k,
        {
            let w = chars_of(ws[k].as_str());
            proof {
                assert(wv.take(k + 1).drop_last() =~= wv.take(k as int));
                assert(wv.take(k + 1).last() == w@);
            }
            match split_once_at(&w, '=') {
                Some((a, b)) => {
                    let ghost prev = pair_views(entries@);
                    entries.push((string_of(&a), string_of(&b)));
                    assert(pair_views(entries@) =~= prev.push((a@, b@)));
                    assert(base + word_pairs(wv.take(k + 1)) =~= prev.push((a@, b@)));
                },
                None => {},
            }
            k = k + 1;
        }
        proof {
            assert(wv.take(k as int) =~= wv);
            assert(ls.take(i + 1).drop_last() =~= ls.take(i as int));
            assert(ls.take(i + 1).last() == lines@[i as int]@);
        }
        i = i + 1;
    }
    assert(ls.take(i as int) =~= ls);
    ReplyValues { entries }
}


/// Trailing `\r` and `\n` characters removed.
pub open spec fn trim_line_end(s: Seq<char>) -> Seq<char>
    decreases s.len(),
{
    if s.len() > 0 && (s.last() == '\r' || s.last() == '\n') {
        trim_line_end(s.drop_last())
    } else {
        s
    }
}

fn trim_line_end_chars(v: &Vec<char>) -> (r: Vec<char>)
    ensures
        r@ == trim_line_end(v@),
{
    let mut j: usize = v.len();
    assert(v@.take(j as int) =~= v@);
    while j > 0 && (v[j - 1] == '\r' || v[j - 1] == '\n')
        invariant
            j <= v.len(),
            trim_line_end(v@) == trim_line_end(v@.take(j as int)),
        decreases j,
    {
        assert(v@.take(j as int).drop_last() =~= v@.take(j - 1));
        j = j - 1;
    }
    let r = crate::text::copy_range(v, 0, j);
    assert(r@ =~= v@.take(j as int));
    r
}

/// A reply line with its line ending removed.
pub fn trim_reply_line(raw: &str) -> (r: String)
    ensures
        r@ == trim_line_end(raw@),
{
    let v = chars_of(raw);
    let t = trim_line_end_chars(&v);
    string_of(&t)
}

/// A reply line can be cut after its status and separator: where it is at
/// least four bytes long, bytes 3 and 4 begin characters.
pub open spec fn reply_line_sliceable(raw: Seq<char>) -> bool {
    let b = encode_utf8(trim_line_end(raw));
    b.len() >= 4 ==> is_char_boundary(b, 3) && is_char_boundary(b, 4)
}

/// Where a reply is being read: status lines, or the data block that a
/// `250+key=` line opened.
pub enum ReplyState {
    Lines,
    Data { key: String, data: String },
}

/// What the reply lines read so far give.
pub struct ReplyReader {
    pub lines: Vec<String>,
    pub state: ReplyState,
}

/// Whether the reply is complete.
#[derive(Debug, PartialEq, Eq, Structural)]
pub enum ReplyProgress {
    More,
    Complete,
}

/// What a reply reader holds, as text: the body lines, and the open data
/// block (its key and the data so far), if any.
pub struct ReplyReaderView {
    pub lines: Seq<Seq<char>>,
    pub data: Option<(Seq<char>, Seq<char>)>,
}

impl View for ReplyReader {
    type V = ReplyReaderView;

    open spec fn view(&self) -> ReplyReaderView {
        ReplyReaderView {
            lines: views(self.lines@),
            data: match self.state {
                ReplyState::Lines => None,
                ReplyState::Data { key, data } => Some((key@, data@)),
            },
        }
    }
}

/// The failure with the message `m`.
pub open spec fn fails_with(r: Result<ReplyProgress, Failure>, m: Seq<char>) -> bool {
    r matches Err(Failure::Other(t)) && t@ == m
}

impl ReplyReader {
    /// A reader before the first line.
    pub fn new() -> (r: ReplyReader)
        ensures
            r@.lines == Seq::<Seq<char>>::empty(),
            r@.data is None,
    {
        let r = ReplyReader { lines: Vec::new(), state: ReplyState::Lines };
        assert(r@.lines =~= Seq::<Seq<char>>::empty());
        r
    }

    /// Takes the next line of a control-port reply (`None` when the
    /// connection has ended). Outside a data block a line is `250`, a
    /// separator and a body: `-` keeps the body and goes on, ` ` ends the
    /// reply (keeping the body unless it is `OK`), `+` opens a data block
    /// that runs to a line `.`; any other status is refused. Inside a data
    /// block the lines are joined; the block becomes the line `key=data`.
    /// An ended connection reads as an empty line there.
    pub fn feed(&mut self, raw: Option<&str>) -> (r: Result<ReplyProgress, Failure>)
        requires
            old(self)@.data is None && raw is Some ==> reply_line_sliceable(raw->Some_0@),
        ensures
            match (old(self)@.data, raw) {
                (None, None) => fails_with(r, "Tor control port closed unexpectedly"@)
                    && final(self)@ == old(self)@,
                (None, Some(raw)) => {
                    let line = trim_line_end(raw@);
                    let b = encode_utf8(line);
                    let body = decode_utf8(b.subrange(4, b.len() as int));
                    if b.len() < 4 {
                        fails_with(r, "malformed Tor control reply: "@ + line)
                            && final(self)@ == old(self)@
                    } else if !(b[0] == 0x32 && b[1] == 0x35 && b[2] == 0x30) {
                        (r matches Err(Failure::Chat(OnionChatError::TorProtocol(t))) && t@ == line)
                            && final(self)@ == old(self)@
                    } else if b[3] == 0x2d {
                        r == Ok::<ReplyProgress, Failure>(ReplyProgress::More)
                            && final(self)@.lines == old(self)@.lines.push(body)
                            && final(self)@.data is None
                    } else if b[3] == 0x20 {
                        r == Ok::<ReplyProgress, Failure>(ReplyProgress::Complete)
                            && final(self)@.lines == (if body == "OK"@ {
                                old(self)@.lines
                            } else {
                                old(self)@.lines.push(body)
                            })
                            && final(self)@.data is None
                    } else if b[3] == 0x2b {
                        r == Ok::<ReplyProgress, Failure>(ReplyProgress::More)
                            && final(self)@.lines == old(self)@.lines
                            && final(self)@.data == Some((body, Seq::<char>::empty()))
                    } else {
                        fails_with(r, "unknown Tor reply separator: "@ + seq![(b[3] as u32) as char])
                            && final(self)@ == old(self)@
                    }
                },
                (Some((key, data)), _) => {
                    let chunk = match raw {
                        Some(t) => trim_line_end(t@),
                        None => Seq::<char>::empty(),
                    };
                    r == Ok::<ReplyProgress, Failure>(ReplyProgress::More) && if chunk == "."@ {
                        final(self)@.lines == old(self)@.lines.push(key + "="@ + data)
                            && final(self)@.data is None
                    } else {
                        final(self)@.lines == old(self)@.lines
                            && final(self)@.data == Some((key, data + chunk))
                    }
                },
            },
    {
        let mut state = ReplyState::Lines;
        std::mem::swap(&mut state, &mut self.state);
        match state {
            ReplyState::Data { key, data } => {
                let chunk = match raw {
                    Some(t) => trim_reply_line(t),
                    None => String::new(),
                };
                if chunk == ".".to_owned() {
                    let with_eq = concat(key.as_str(), "=");
                    let joined = concat(with_eq.as_str(), data.as_str());
                    let ghost prev = views(self.lines@);
                    self.lines.push(joined);
                    assert(views(self.lines@) =~= prev.push(key@ + "="@ + data@));
                } else {
                    let more = concat(data.as_str(), chunk.as_str());
                    self.state = ReplyState::Data { key, data: more };
                }
                Ok(ReplyProgress::More)
            },
            ReplyState::Lines => {
                let raw = match raw {
                    Some(t) => t,
                    None => {
                        return Err(Failure::Other("Tor control port closed unexpectedly".to_owned()));
                    },
                };
                let line = trim_reply_line(raw);
                let b = line.as_str().as_bytes();
                proof {
                    vstd::utf8::encode_utf8_valid_utf8(line@);
                }
                if b.len() < 4 {
                    return Err(Failure::Other(concat("malformed Tor control reply: ", line.as_str())));
                }
                if !(b[0] == 0x32 && b[1] == 0x35 && b[2] == 0x30) {
                    return Err(Failure::Chat(OnionChatError::TorProtocol(line)));
                }
                let sep = b[3];
                let tail = copy_bytes(b, 4, b.len());
                proof {
                    vstd::utf8::valid_utf8_split(b@, 4);
                }
                let body = match string_from_utf8(tail) {
                    Some(s) => s,
                    None => {
                        return Err(Failure::Other(String::new()));
                    },
                };
                if sep == 0x2d {
                    let ghost prev = views(self.lines@);
                    self.lines.push(body);
                    assert(views(self.lines@) =~= prev.push(body@));
                    Ok(ReplyProgress::More)
                } else if sep == 0x20 {
                    if body != "OK".to_owned() {
                        let ghost prev = views(self.lines@);
                        self.lines.push(body);
                        assert(views(self.lines@) =~= prev.push(body@));
                    }
                    Ok(ReplyProgress::Complete)
                } else if sep == 0x2b {
                    self.state = ReplyState::Data { key: body, data: String::new() };
                    Ok(ReplyProgress::More)
                } else {
                    let c = byte_char(sep);
                    let mut v: Vec<char> = Vec::new();
                    v.push(c);
                    let cs = string_of(&v);
                    Err(Failure::Other(concat("unknown Tor reply separator: ", cs.as_str())))
                }
            },
        }
    }
}

/// The character whose code point is the byte `b` (`char::from(u8)`).
fn byte_char(b: u8) -> (c: char)
    ensures
        c == (b as u32) as char,
{
    b as char
}


/// The pieces of `s` between the separators `sep` (`str::split`): one more
/// piece than there are separators.
pub open spec fn pieces_scan(s: Seq<char>, sep: char) -> (Seq<Seq<char>>, Seq<char>)
    decreases s.len(),
{
    if s.len() == 0 {
        (Seq::empty(), Seq::empty())
    } else {
        let st = pieces_scan(s.drop_last(), sep);
        if s.last() == sep {
            (st.0.push(st.1), Seq::empty())
        } else {
            (st.0, st.1.push(s.last()))
        }
    }
}

pub open spec fn split_pieces(s: Seq<char>, sep: char) -> Seq<Seq<char>> {
    pieces_scan(s, sep).0.push(pieces_scan(s, sep).1)
}

/// The pieces of `s` between commas.
fn split_commas(s: &str) -> (r: Vec<String>)
    ensures
        views(r@) == split_pieces(s@, ','),
{
    let v = chars_of(s);
    let mut out: Vec<String> = Vec::new();
    let mut cur: Vec<char> = Vec::new();
    let mut i: usize = 0;
    assert(v@.take(0) =~= Seq::<char>::empty());
    assert(views(out@) =~= Seq::<Seq<char>>::empty());
    assert(cur@ =~= Seq::<char>::empty());
    while i < v.len()
        invariant
            0 <= i <= v.len(),
            pieces_scan(v@.take(i as int), ',') == (views(out@), cur@),
        decreases v.len() - i,
    {
        let c = v[i];
        proof {
            assert(v@.take(i + 1).drop_last() =~= v@.take(i as int));
        }
        if c == ',' {
            let w = string_of(&cur);
            let ghost prev = views(out@);
            out.push(w);
            assert(views(out@) =~= prev.push(cur@));
            cur = Vec::new();
            assert(cur@ =~= Seq::<char>::empty());
        } else {
            cur.push(c);
        }
        i = i + 1;
    }
    assert(v@.take(i as int) =~= v@);
    let w = string_of(&cur);
    let ghost prev = views(out@);
    out.push(w);
    assert(views(out@) =~= prev.push(cur@));
    out
}

/// `s` holds the text `t`.
fn contains_text(s: &Vec<String>, t: &str) -> (r: bool)
    ensures
        r == views(s@).contains(t@),
{
    let wanted = t.to_owned();
    let mut i: usize = 0;
    while i < s.len()
        invariant
            0 <= i <= s.len(),
            wanted@ == t@,
            forall|j: int| 0 <= j < i ==> views(s@)[j] != t@,
        decreases s.len() - i,
    {
        if s[i] == wanted {
            assert(views(s@)[i as int] == t@);
            return true;
        }
        i = i + 1;
    }
    false
}

/// How to authenticate to the control port.
#[derive(Debug, Clone)]
pub enum AuthMethod {
    /// SAFECOOKIE, with the cookie file that Tor named.
    SafeCookie(String),
    /// No authentication.
    Null,
}

/// The text of `s` starts with `p`.
pub open spec fn starts_with(s: Seq<char>, p: Seq<char>) -> bool {
    s.len() >= p.len() && s.take(p.len() as int) == p
}

/// `i` is the first line that starts with `AUTH `.
pub open spec fn is_first_auth_line(lines: Seq<Seq<char>>, i: int) -> bool {
    &&& 0 <= i < lines.len()
    &&& starts_with(lines[i], "AUTH "@)
    &&& forall|j: int| 0 <= j < i ==> !starts_with(lines[j], "AUTH "@)
}

/// The attributes of the first `AUTH ` line of a PROTOCOLINFO reply.
pub open spec fn auth_attributes(lines: Seq<Seq<char>>) -> Option<Map<Seq<char>, Seq<char>>> {
    if exists|i: int| is_first_auth_line(lines, i) {
        let i = choose|i: int| is_first_auth_line(lines, i);
        Some(assoc_map(quoted_pairs(quoted_fields(lines[i]))))
    } else {
        None
    }
}

/// The value of `METHODS`, empty when absent.
pub open spec fn methods_text(attrs: Map<Seq<char>, Seq<char>>) -> Seq<char> {
    if attrs.contains_key("METHODS"@) {
        attrs["METHODS"@]
    } else {
        Seq::empty()
    }
}

fn first_auth_line(lines: &Vec<String>) -> (r: Option<usize>)
    ensures
        match r {
            Some(i) => is_first_auth_line(views(lines@), i as int),
            None => !exists|i: int| is_first_auth_line(views(lines@), i),
        },
{
    let prefix = chars_of("AUTH ");
    let mut i: usize = 0;
    while i < lines.len()
        invariant
            0 <= i <= lines.len(),
            prefix@ == "AUTH "@,
            forall|j: int| 0 <= j < i ==> !starts_with(views(lines@)[j], "AUTH "@),
        decreases lines.len() - i,
    {
        let v = chars_of(lines[i].as_str());
        let mut ok = v.len() >= prefix.len();
        let mut k: usize = 0;
        if ok {
            while k < prefix.len()
                invariant
                    0 <= k <= prefix.len() <= v.len(),
                    ok ==> forall|m: int| 0 <= m < k ==> v@[m] == prefix@[m],
                    !ok ==> !(v@.take(prefix.len() as int) == prefix@),
                decreases prefix.len() - k,
            {
                if ok && v[k] != prefix[k] {
                    ok = false;
                    assert(v@.take(prefix.len() as int)[k as int] != prefix@[k as int]);
                }
                k = k + 1;
            }
            if ok {
                assert(v@.take(prefix.len() as int) =~= prefix@);
            }
        }
        assert(views(lines@)[i as int] == v@);
        if ok {
            return Some(i);
        }
        i = i + 1;
    }
    None
}

/// Chooses the authentication that a PROTOCOLINFO reply allows: SAFECOOKIE
/// when offered (it needs a cookie file), otherwise NULL when offered.
pub fn choose_auth_method(protocolinfo: &Vec<String>) -> (r: Result<AuthMethod, Failure>)
    ensures
        match auth_attributes(views(protocolinfo@)) {
            None => r matches Err(Failure::Chat(OnionChatError::TorProtocol(m)))
                && m@ == "missing AUTH line in PROTOCOLINFO"@,
            Some(attrs) => {
                let methods = split_pieces(methods_text(attrs), ',');
                if methods.contains("SAFECOOKIE"@) {
                    if attrs.contains_key("COOKIEFILE"@) {
                        r matches Ok(AuthMethod::SafeCookie(p)) && p@ == attrs["COOKIEFILE"@]
                    } else {
                        r matches Err(Failure::Chat(OnionChatError::TorAuth(m)))
                            && m@ == "SAFECOOKIE offered without COOKIEFILE"@
                    }
                } else if methods.contains("NULL"@) {
                    r matches Ok(AuthMethod::Null)
                } else {
                    r matches Err(Failure::Chat(OnionChatError::TorAuth(m)))
                        && m@ == "unsupported Tor authentication methods: "@ + methods_text(attrs)
                }
            },
        },
{
    let i = match first_auth_line(protocolinfo) {
        Some(i) => i,
        None => {
            return Err(
                Failure::Chat(
                    OnionChatError::TorProtocol("missing AUTH line in PROTOCOLINFO".to_owned()),
                ),
            );
        },
    };
    proof {
        let k = choose|k: int| is_first_auth_line(views(protocolinfo@), k);
        assert(k == i);
    }
    let attributes = parse_kv_pairs(protocolinfo[i].as_str());
    let methods_value = match attributes.get("METHODS") {
        Some(m) => m,
        None => String::new(),
    };
    let methods = split_commas(methods_value.as_str());
    if contains_text(&methods, "SAFECOOKIE") {
        match attributes.get("COOKIEFILE") {
            Some(path) => Ok(AuthMethod::SafeCookie(path)),
            None => Err(
                Failure::Chat(
                    OnionChatError::TorAuth("SAFECOOKIE offered without COOKIEFILE".to_owned()),
                ),
            ),
        }
    } else if contains_text(&methods, "NULL") {
        Ok(AuthMethod::Null)
    } else {
        Err(
            Failure::Chat(
                OnionChatError::TorAuth(
                    concat("unsupported Tor authentication methods: ", methods_value.as_str()),
                ),
            ),
        )
    }
}


/// The HMAC key with which Tor proves that it knows the cookie.
pub open spec fn safecookie_server_key() -> Seq<u8> {
    encode_utf8("Tor safe cookie authentication server-to-controller hash"@)
}

/// The HMAC key with which the controller proves that it knows the cookie.
pub open spec fn safecookie_client_key() -> Seq<u8> {
    encode_utf8("Tor safe cookie authentication controller-to-server hash"@)
}

/// `a` followed by `b`.
pub fn concat_bytes(a: &[u8], b: &[u8]) -> (r: Vec<u8>)
    ensures
        r@ == a@ + b@,
{
    let mut r = copy_bytes(a, 0, a.len());
    assert(r@ =~= a@);
    let mut i: usize = 0;
    while i < b.len()
        invariant
            0 <= i <= b@.len(),
            r@ == a@ + b@.take(i as int),
        decreases b.len() - i,
    {
        r.push(b[i]);
        i = i + 1;
        assert(r@ =~= a@ + b@.take(i as int));
    }
    assert(b@.take(i as int) =~= b@);
    r
}

/// The SAFECOOKIE proof: HMAC-SHA256 under `key` of the cookie, the client
/// nonce and the server nonce, in that order.
pub fn safecookie_hmac(key: &[u8], cookie: &[u8], client_nonce: &[u8], server_nonce: &[u8]) -> (r:
    Vec<u8>)
    ensures
        r@ == hmac_sha256_tag(key@, cookie@ + client_nonce@ + server_nonce@),
{
    let a = concat_bytes(cookie, client_nonce);
    let data = concat_bytes(a.as_slice(), server_nonce);
    hmac_sha256(key, data.as_slice())
}

/// A SAFECOOKIE cookie is 32 bytes long.
pub fn check_safecookie_cookie(cookie: &[u8]) -> (r: Result<(), OnionChatError>)
    ensures
        cookie@.len() == 32 <==> r is Ok,
        r matches Err(e) ==> (e matches OnionChatError::TorAuth(m)
            && m@ == "Tor SAFECOOKIE cookie must be 32 bytes"@),
{
    if cookie.len() != 32 {
        return Err(OnionChatError::TorAuth("Tor SAFECOOKIE cookie must be 32 bytes".to_owned()));
    }
    Ok(())
}

/// A fresh 32-byte client nonce for SAFECOOKIE.
pub fn safecookie_client_nonce() -> (r: Vec<u8>)
    ensures
        r@.len() == 32,
{
    thread_random_bytes(32)
}

/// The command that asks Tor for its SAFECOOKIE challenge.
pub fn safecookie_challenge_command(client_nonce: &[u8]) -> (r: String)
    ensures
        r@ == "AUTHCHALLENGE SAFECOOKIE "@ + hex_lower(client_nonce@),
{
    let h = hex_encode(client_nonce);
    concat("AUTHCHALLENGE SAFECOOKIE ", h.as_str())
}

/// The outcome of a SAFECOOKIE challenge reply whose fields are `values`:
/// the server hash and nonce must be present hexadecimal, the server hash
/// must be the expected proof; then the AUTHENTICATE command with the
/// client proof. A failed check is an authentication failure (`true`);
/// the others are reply failures (`false`).
pub open spec fn safecookie_outcome(
    values: Map<Seq<char>, Seq<char>>,
    cookie: Seq<u8>,
    client_nonce: Seq<u8>,
) -> Result<Seq<char>, (bool, Seq<char>)> {
    if !values.contains_key("SERVERHASH"@) {
        Err((false, "Tor did not return SERVERHASH"@))
    } else if hex_decoded(values["SERVERHASH"@]) is None {
        Err((false, "invalid SERVERHASH hex"@))
    } else if !values.contains_key("SERVERNONCE"@) {
        Err((false, "Tor did not return SERVERNONCE"@))
    } else if hex_decoded(values["SERVERNONCE"@]) is None {
        Err((false, "invalid SERVERNONCE hex"@))
    } else {
        let server_hash = hex_decoded(values["SERVERHASH"@])->Some_0;
        let server_nonce = hex_decoded(values["SERVERNONCE"@])->Some_0;
        let data = cookie + client_nonce + server_nonce;
        if server_hash != hmac_sha256_tag(safecookie_server_key(), data) {
            Err((true, "SAFECOOKIE server hash verification failed"@))
        } else {
            Ok("AUTHENTICATE "@ + hex_lower(hmac_sha256_tag(safecookie_client_key(), data)))
        }
    }
}

/// Checks Tor's answer to the SAFECOOKIE challenge and gives the command
/// that completes authentication.
pub fn safecookie_authenticate_command(
    reply: &Vec<String>,
    cookie: &[u8],
    client_nonce: &[u8],
) -> (r: Result<String, Failure>)
    ensures
        match safecookie_outcome(assoc_map(reply_pairs(views(reply@))), cookie@, client_nonce@) {
            Ok(cmd) => r matches Ok(c) && c@ == cmd,
            Err((true, m)) => r matches Err(Failure::Chat(OnionChatError::TorAuth(t))) && t@ == m,
            Err((false, m)) => r matches Err(Failure::Other(t)) && t@ == m,
        },
{
    let values = flatten_reply(reply);
    let server_hash_hex = match values.get("SERVERHASH") {
        Some(h) => h,
        None => {
            return Err(Failure::Other("Tor did not return SERVERHASH".to_owned()));
        },
    };
    let server_hash = match hex_decode(server_hash_hex.as_str()) {
        Some(h) => h,
        None => {
            return Err(Failure::Other("invalid SERVERHASH hex".to_owned()));
        },
    };
    let server_nonce_hex = match values.get("SERVERNONCE") {
        Some(h) => h,
        None => {
            return Err(Failure::Other("Tor did not return SERVERNONCE".to_owned()));
        },
    };
    let server_nonce = match hex_decode(server_nonce_hex.as_str()) {
        Some(h) => h,
        None => {
            return Err(Failure::Other("invalid SERVERNONCE hex".to_owned()));
        },
    };
    let server_key = "Tor safe cookie authentication server-to-controller hash".as_bytes();
    let client_key = "Tor safe cookie authentication controller-to-server hash".as_bytes();
    let expected = safecookie_hmac(server_key, cookie, client_nonce, server_nonce.as_slice());
    if !bytes_equal(server_hash.as_slice(), expected.as_slice()) {
        return Err(
            Failure::Chat(
                OnionChatError::TorAuth("SAFECOOKIE server hash verification failed".to_owned()),
            ),
        );
    }
    let client_hash = safecookie_hmac(client_key, cookie, client_nonce, server_nonce.as_slice());
    let h = hex_encode(client_hash.as_slice());
    Ok(concat("AUTHENTICATE ", h.as_str()))
}

/// The two byte strings are equal.
pub fn bytes_equal(a: &[u8], b: &[u8]) -> (r: bool)
    ensures
        r == (a@ == b@),
{
    if a.len() != b.len() {
        return false;
    }
    let mut i: usize = 0;
    while i < a.len()
        invariant
            0 <= i <= a@.len() == b@.len(),
            forall|k: int| 0 <= k < i ==> a@[k] == b@[k],
        decreases a.len() - i,
    {
        if a[i] != b[i] {
            return false;
        }
        i = i + 1;
    }
    assert(a@ =~= b@);
    true
}

/// The command that creates a new onion service key, with the virtual port
/// mapped to a placeholder target.
pub fn add_onion_new_command(virtual_port: u16) -> (r: String)
    ensures
        r@ == "ADD_ONION NEW:ED25519-V3 Port="@ + decimal(virtual_port as nat) + ",127.0.0.1:1"@,
{
    let p = decimal_string(virtual_port as u64);
    let a = concat("ADD_ONION NEW:ED25519-V3 Port=", p.as_str());
    concat(a.as_str(), ",127.0.0.1:1")
}

/// The command that publishes the onion service of `private_key`, mapping
/// the virtual port to the local target port.
pub fn add_onion_command(private_key: &str, virtual_port: u16, target_port: u16) -> (r: String)
    ensures
        r@ == "ADD_ONION "@ + private_key@ + " Port="@ + decimal(virtual_port as nat)
            + ",127.0.0.1:"@ + decimal(target_port as nat),
{
    let a = concat("ADD_ONION ", private_key);
    let b = concat(a.as_str(), " Port=");
    let v = decimal_string(virtual_port as u64);
    let c = concat(b.as_str(), v.as_str());
    let d = concat(c.as_str(), ",127.0.0.1:");
    let t = decimal_string(target_port as u64);
    concat(d.as_str(), t.as_str())
}

/// The command that removes an onion service.
pub fn del_onion_command(service_id: &str) -> (r: String)
    ensures
        r@ == "DEL_ONION "@ + service_id@,
{
    concat("DEL_ONION ", service_id)
}

/// The key material of a newly created onion service.
#[derive(Debug, Clone)]
pub struct OnionIdentityMaterial {
    pub service_id: String,
    pub private_key: String,
}

/// A published onion service.
#[derive(Debug, Clone)]
pub struct ActiveOnionService {
    pub service_id: String,
    pub onion_address: String,
}

/// The service id and private key of an ADD_ONION reply.
pub fn identity_material_from_reply(reply: &Vec<String>) -> (r: Result<OnionIdentityMaterial, Failure>)
    ensures
        ({
            let values = assoc_map(reply_pairs(views(reply@)));
            if !values.contains_key("ServiceID"@) {
                r matches Err(Failure::Other(m)) && m@ == "Tor did not return ServiceID"@
            } else if !values.contains_key("PrivateKey"@) {
                r matches Err(Failure::Other(m)) && m@ == "Tor did not return PrivateKey"@
            } else {
                r matches Ok(id) && id.service_id@ == values["ServiceID"@]
                    && id.private_key@ == values["PrivateKey"@]
            }
        }),
{
    let values = flatten_reply(reply);
    let service_id = match values.get("ServiceID") {
        Some(v) => v,
        None => {
            return Err(Failure::Other("Tor did not return ServiceID".to_owned()));
        },
    };
    let private_key = match values.get("PrivateKey") {
        Some(v) => v,
        None => {
            return Err(Failure::Other("Tor did not return PrivateKey".to_owned()));
        },
    };
    Ok(OnionIdentityMaterial { service_id, private_key })
}

/// The published service of an ADD_ONION reply: its id and `<id>.onion`.
pub fn active_service_from_reply(reply: &Vec<String>) -> (r: Result<ActiveOnionService, Failure>)
    ensures
        ({
            let values = assoc_map(reply_pairs(views(reply@)));
            if !values.contains_key("ServiceID"@) {
                r matches Err(Failure::Other(m)) && m@ == "Tor did not return ServiceID"@
            } else {
                r matches Ok(s) && s.service_id@ == values["ServiceID"@]
                    && s.onion_address@ == values["ServiceID"@] + ".onion"@
            }
        }),
{
    let values = flatten_reply(reply);
    let service_id = match values.get("ServiceID") {
        Some(v) => v,
        None => {
            return Err(Failure::Other("Tor did not return ServiceID".to_owned()));
        },
    };
    let onion_address = concat(service_id.as_str(), ".onion");
    Ok(ActiveOnionService { onion_address, service_id })
}

} // verus!
