//! Place lookup for the event form's Location field.
//!
//! Photon (OpenStreetMap) turns a typed name into a street address. What is
//! decided here: when a query is worth searching, when it may leave the
//! machine, what the request says, how a result is labelled, and how the
//! user's own history and the remote hits are merged.

use vstd::prelude::*;
use vstd::utf8::encode_scalar;
use vstd::utf8::encode_utf8;
use crate::text::{
    occurs_at, ascii_lower, chars_of, contains_exec, contains_sub, eq_ignore_ascii_case, eq_ignore_case,
    lemma_views_push, push_all, string_of, to_ascii_lower, trim, trim_exec, views,
};

verus! {

// --------------------------------------------------------------- gates

/// Photon is asked only when the user opted in, and never in demo mode.
pub fn may_fetch_photon(demo: bool, enabled: bool) -> (r: bool)
    ensures
        r == (!demo && enabled),
{
    !demo && enabled
}

pub open spec fn has_url(q: Seq<char>) -> bool {
    contains_sub(ascii_lower(q), "https://"@) || contains_sub(ascii_lower(q), "http://"@)
}

/// Any `http://` / `https://` in the query, in any case — meeting links
/// with passcodes, map pins, tickets. History can still match; Photon never
/// sees these.
pub fn query_has_url(q: &str) -> (r: bool)
    ensures
        r == has_url(q@),
{
    let lower = to_ascii_lower(&chars_of(q));
    contains_exec(&lower, &chars_of("https://")) || contains_exec(&lower, &chars_of("http://"))
}

pub open spec fn searchable(q: Seq<char>) -> bool {
    trim(q).len() >= 2
}

/// Two characters, once trimmed, before anything shows.
pub fn query_is_searchable(q: &str) -> (r: bool)
    ensures
        r == searchable(q@),
{
    trim_exec(&chars_of(q)).len() >= 2
}

// -------------------------------------------------------- percent-encoding

pub open spec fn unreserved(c: char) -> bool {
    ('a' <= c && c <= 'z') || ('A' <= c && c <= 'Z') || ('0' <= c && c <= '9') || c == '-' || c == '_'
        || c == '.' || c == '~'
}

/// An upper-case hex digit.
pub open spec fn hex_digit(n: int) -> char {
    if n < 10 {
        ('0' as int + n) as char
    } else {
        ('A' as int + n - 10) as char
    }
}

pub open spec fn pct_bytes(bs: Seq<u8>) -> Seq<char>
    decreases bs.len(),
{
    if bs.len() == 0 {
        Seq::empty()
    } else {
        seq!['%', hex_digit(bs[0] as int / 16), hex_digit(bs[0] as int % 16)] + pct_bytes(bs.drop_first())
    }
}

/// One character as a URL carries it: itself when unreserved, else each
/// byte of its UTF-8 encoding as `%XX`.
pub open spec fn encode_char(c: char) -> Seq<char> {
    if unreserved(c) {
        seq![c]
    } else {
        pct_bytes(encode_scalar(c as u32))
    }
}

pub open spec fn percent_encode_spec(s: Seq<char>) -> Seq<char>
    decreases s.len(),
{
    if s.len() == 0 {
        Seq::empty()
    } else {
        percent_encode_spec(s.drop_last()) + encode_char(s.last())
    }
}

fn hex_digit_exec(n: u8) -> (c: char)
    requires
        n < 16,
    ensures
        c == hex_digit(n as int),
{
    if n < 10 {
        (48u8 + n) as char
    } else {
        (55u8 + n) as char
    }
}

fn utf8_bytes(c: char) -> (r: Vec<u8>)
    ensures
        r@ == encode_scalar(c as u32),
{
    let scalar = c as u32;
    let mut r: Vec<u8> = Vec::new();
    if scalar <= 0x7F {
        r.push((scalar & 0x7F) as u8);
    } else if scalar <= 0x7FF {
        r.push(0xC0 | ((scalar >> 6) & 0x1F) as u8);
        r.push(0x80 | (scalar & 0x3F) as u8);
    } else if scalar <= 0xFFFF && !(0xD800 <= scalar && scalar <= 0xDFFF) {
        r.push(0xE0 | ((scalar >> 12) & 0x0F) as u8);
        r.push(0x80 | ((scalar >> 6) & 0x3F) as u8);
        r.push(0x80 | (scalar & 0x3F) as u8);
    } else {
        r.push(0xF0 | ((scalar >> 18) & 0x7) as u8);
        r.push(0x80 | ((scalar >> 12) & 0x3F) as u8);
        r.push(0x80 | ((scalar >> 6) & 0x3F) as u8);
        r.push(0x80 | (scalar & 0x3F) as u8);
    }
    assert(r@ =~= encode_scalar(scalar));
    r
}

fn push_encoded(out: &mut Vec<char>, c: char)
    ensures
        final(out)@ == old(out)@ + encode_char(c),
{
    if ('a' <= c && c <= 'z') || ('A' <= c && c <= 'Z') || ('0' <= c && c <= '9') || c == '-' || c == '_'
        || c == '.' || c == '~' {
        out.push(c);
        assert(out@ =~= old(out)@ + encode_char(c));
        return;
    }
    let bytes = utf8_bytes(c);
    let mut i: usize = 0;
    assert(bytes@.skip(0) =~= bytes@);
    while i < bytes.len()
        invariant
            i <= bytes.len(),
            out@ + pct_bytes(bytes@.skip(i as int)) == old(out)@ + pct_bytes(bytes@),
        decreases bytes.len() - i,
    {
        let b = bytes[i];
        let ghost before = out@;
        assert(bytes@.skip(i as int).drop_first() =~= bytes@.skip(i + 1));
        out.push('%');
        out.push(hex_digit_exec(b / 16));
        out.push(hex_digit_exec(b % 16));
        assert(out@ + pct_bytes(bytes@.skip(i + 1)) =~= before + pct_bytes(bytes@.skip(i as int)));
        i += 1;
    }
    assert(bytes@.skip(i as int) =~= Seq::<u8>::empty());
    assert(out@ + Seq::<char>::empty() =~= out@);
}

/// Percent-encodes everything but ASCII letters, digits and `-_.~`, byte by
/// byte of the UTF-8 encoding, in upper-case hex.
pub fn percent_encode(s: &str) -> (r: String)
    ensures
        r@ == percent_encode_spec(s@),
{
    let chars = chars_of(s);
    let mut out: Vec<char> = Vec::new();
    let mut i: usize = 0;
    while i < chars.len()
        invariant
            i <= chars.len(),
            out@ == percent_encode_spec(chars@.take(i as int)),
        decreases chars.len() - i,
    {
        assert(chars@.take(i + 1).drop_last() =~= chars@.take(i as int));
        push_encoded(&mut out, chars[i]);
        i += 1;
    }
    assert(chars@.take(chars.len() as int) =~= chars@);
    string_of(&out)
}

pub open spec fn photon_url_spec(q: Seq<char>) -> Seq<char> {
    "https://photon.komoot.io/api?q="@ + percent_encode_spec(q) + "&limit=8&lang=en"@
}

/// The Photon request for a query: the typed name only, no location bias,
/// eight hits at most.
pub fn photon_url(q: &str) -> (r: String)
    ensures
        r@ == photon_url_spec(q@),
{
    let mut out = chars_of("https://photon.komoot.io/api?q=");
    push_all(&mut out, &chars_of(percent_encode(q).as_str()));
    push_all(&mut out, &chars_of("&limit=8&lang=en"));
    string_of(&out)
}

// ----------------------------------------------------------------- labels

/// The address parts of one Photon feature, each as the feature spelled it
/// (`None` where it had none, or had something other than text).
#[derive(Debug, Clone, PartialEq)]
pub struct PlaceProps {
    pub name: Option<String>,
    pub housenumber: Option<String>,
    pub street: Option<String>,
    pub city: Option<String>,
    pub state: Option<String>,
    pub postcode: Option<String>,
    pub country: Option<String>,
}

pub open spec fn text_of(o: Option<String>) -> Option<Seq<char>> {
    match o {
        Some(s) => Some(s@),
        None => None,
    }
}

/// A part as a label uses it: trimmed, and absent when empty.
pub open spec fn field(o: Option<Seq<char>>) -> Option<Seq<char>> {
    match o {
        Some(v) => if trim(v).len() > 0 { Some(trim(v)) } else { None },
        None => None,
    }
}

/// Two parts that go together with a space, either alone, or neither.
pub open spec fn pair(a: Option<Seq<char>>, b: Option<Seq<char>>) -> Option<Seq<char>> {
    match (a, b) {
        (Some(x), Some(y)) => Some(x + seq![' '] + y),
        (None, Some(y)) => Some(y),
        (Some(x), None) => Some(x),
        (None, None) => None,
    }
}

/// `name`, `housenumber street`, `city`, `state postcode`, `country`.
pub open spec fn candidates(p: PlaceProps) -> Seq<Option<Seq<char>>> {
    seq![
        field(text_of(p.name)),
        pair(field(text_of(p.housenumber)), field(text_of(p.street))),
        field(text_of(p.city)),
        pair(field(text_of(p.state)), field(text_of(p.postcode))),
        field(text_of(p.country)),
    ]
}

/// The present parts, in order, each dropped when it merely repeats the
/// one before it (in any ASCII case).
pub open spec fn kept_parts(cands: Seq<Option<Seq<char>>>) -> Seq<Seq<char>>
    decreases cands.len(),
{
    if cands.len() == 0 {
        Seq::empty()
    } else {
        let parts = kept_parts(cands.drop_last());
        match cands.last() {
            None => parts,
            Some(part) => if parts.len() > 0 && eq_ignore_ascii_case(parts.last(), part) {
                parts
            } else {
                parts.push(part)
            },
        }
    }
}

pub open spec fn join(parts: Seq<Seq<char>>, sep: Seq<char>) -> Seq<char>
    decreases parts.len(),
{
    if parts.len() == 0 {
        Seq::empty()
    } else if parts.len() == 1 {
        parts[0]
    } else {
        join(parts.drop_last(), sep) + sep + parts.last()
    }
}

pub open spec fn format_label_spec(p: PlaceProps) -> Option<Seq<char>> {
    let parts = kept_parts(candidates(p));
    if parts.len() == 0 {
        None
    } else {
        Some(join(parts, ", "@))
    }
}

fn field_exec(o: &Option<String>) -> (r: Option<Vec<char>>)
    ensures
        crate::cli_tasks::opt_chars_view(r) == field(text_of(*o)),
{
    match o {
        Some(s) => {
            let t = trim_exec(&chars_of(s.as_str()));
            if t.len() > 0 {
                Some(t)
            } else {
                None
            }
        },
        None => None,
    }
}

fn pair_exec(a: Option<Vec<char>>, b: Option<Vec<char>>) -> (r: Option<Vec<char>>)
    ensures
        crate::cli_tasks::opt_chars_view(r) == pair(
            crate::cli_tasks::opt_chars_view(a),
            crate::cli_tasks::opt_chars_view(b),
        ),
{
    match (a, b) {
        (Some(x), Some(y)) => {
            let mut j = x;
            j.push(' ');
            push_all(&mut j, &y);
            Some(j)
        },
        (None, Some(y)) => Some(y),
        (Some(x), None) => Some(x),
        (None, None) => None,
    }
}

pub open spec fn opt_views(v: Seq<Option<Vec<char>>>) -> Seq<Option<Seq<char>>> {
    v.map_values(|o: Option<Vec<char>>| crate::cli_tasks::opt_chars_view(o))
}

/// `{name}, {housenumber} {street}, {city}, {state} {postcode}, {country}`
/// with empty parts dropped, and a part that merely repeats the previous
/// one dropped too — Photon often restates the street as the name. No
/// parts at all is no label.
pub fn format_label(p: &PlaceProps) -> (r: Option<String>)
    ensures
        text_of(r) == format_label_spec(*p),
{
    let mut cands: Vec<Option<Vec<char>>> = Vec::new();
    cands.push(field_exec(&p.name));
    cands.push(pair_exec(field_exec(&p.housenumber), field_exec(&p.street)));
    cands.push(field_exec(&p.city));
    cands.push(pair_exec(field_exec(&p.state), field_exec(&p.postcode)));
    cands.push(field_exec(&p.country));
    assert(opt_views(cands@) =~= candidates(*p));
    let mut parts: Vec<Vec<char>> = Vec::new();
    let mut i: usize = 0;
    while i < cands.len()
        invariant
            i <= cands.len(),
            views(parts@) == kept_parts(opt_views(cands@).take(i as int)),
        decreases cands.len() - i,
    {
        assert(opt_views(cands@).take(i + 1).drop_last() =~= opt_views(cands@).take(i as int));
        assert(opt_views(cands@).take(i + 1).last() == crate::cli_tasks::opt_chars_view(cands@[i as int]));
        match &cands[i] {
            Some(part) => {
                let repeats = parts.len() > 0 && eq_ignore_case(&parts[parts.len() - 1], part);
                if !repeats {
                    let copy = crate::text::slice_chars(part, 0, part.len());
                    assert(copy@ =~= part@);
                    proof { lemma_views_push(parts@, copy); }
                    parts.push(copy);
                }
            },
            None => {},
        }
        i += 1;
    }
    assert(opt_views(cands@).take(cands.len() as int) =~= opt_views(cands@));
    if parts.len() == 0 {
        return None;
    }
    let mut out: Vec<char> = Vec::new();
    let mut k: usize = 0;
    while k < parts.len()
        invariant
            0 < parts.len(),
            k <= parts.len(),
            k == 0 ==> out@ == Seq::<char>::empty(),
            k > 0 ==> out@ == join(views(parts@).take(k as int), ", "@),
        decreases parts.len() - k,
    {
        let ghost before = out@;
        assert(views(parts@).take(k + 1).drop_last() =~= views(parts@).take(k as int));
        if k > 0 {
            push_all(&mut out, &chars_of(", "));
        }
        push_all(&mut out, &parts[k]);
        if k == 0 {
            assert(out@ =~= views(parts@)[0]);
        }
        k += 1;
    }
    assert(views(parts@).take(parts.len() as int) =~= views(parts@));
    Some(string_of(&out))
}

// ------------------------------------------------------------- merging

/// Where a merged row comes from: the user's own history, or the remote
/// search, by its position in the list it came in.
#[derive(Debug, Clone, Copy, PartialEq, Eq)]
pub enum PlaceRef {
    History(usize),
    Remote(usize),
}

pub open spec fn label_of(r: PlaceRef, history: Seq<Seq<char>>, remote: Seq<Seq<char>>) -> Seq<char> {
    match r {
        PlaceRef::History(i) => history[i as int],
        PlaceRef::Remote(j) => remote[j as int],
    }
}

/// The history rows among the first `n` whose label holds `q`, in order.
pub open spec fn history_hits(q: Seq<char>, history: Seq<Seq<char>>, n: int) -> Seq<PlaceRef>
    decreases n,
{
    if n <= 0 {
        Seq::empty()
    } else {
        let hits = history_hits(q, history, n - 1);
        if contains_sub(ascii_lower(history[n - 1]), q) {
            hits.push(PlaceRef::History((n - 1) as usize))
        } else {
            hits
        }
    }
}

pub open spec fn already_listed(out: Seq<PlaceRef>, label: Seq<char>, history: Seq<Seq<char>>, remote: Seq<Seq<char>>) -> bool {
    exists|k: int| 0 <= k < out.len() && eq_ignore_ascii_case(label_of(out[k], history, remote), label)
}

/// The history hits, then the first `n` remote rows, each added while the
/// list is short of `limit` and no row already listed has its label (in
/// any ASCII case).
pub open spec fn merged(q: Seq<char>, history: Seq<Seq<char>>, remote: Seq<Seq<char>>, limit: int, n: int) -> Seq<PlaceRef>
    decreases n,
{
    if n <= 0 {
        history_hits(q, history, history.len() as int)
    } else {
        let out = merged(q, history, remote, limit, n - 1);
        if out.len() >= limit {
            out
        } else if already_listed(out, remote[n - 1], history, remote) {
            out
        } else {
            out.push(PlaceRef::Remote((n - 1) as usize))
        }
    }
}

/// History first (substring match on the label, ASCII case folded, against
/// the trimmed query), then remote hits whose labels are not already
/// listed; `limit` rows at most.
pub open spec fn merge_places_spec(query: Seq<char>, history: Seq<Seq<char>>, remote: Seq<Seq<char>>, limit: int) -> Seq<PlaceRef> {
    let out = merged(ascii_lower(trim(query)), history, remote, limit, remote.len() as int);
    if out.len() > limit {
        out.take(limit)
    } else {
        out
    }
}

pub open spec fn labels(v: Seq<String>) -> Seq<Seq<char>> {
    v.map_values(|s: String| s@)
}

/// Merges the user's history with the remote hits, by label. The result
/// names rows by where they came from, so the caller keeps whatever else
/// each row carries.
pub fn merge_places(query: &str, history: &[String], remote: &[String], limit: usize) -> (r: Vec<PlaceRef>)
    ensures
        r@ == merge_places_spec(query@, labels(history@), labels(remote@), limit as int),
        r@.len() <= limit,
{
    let q = to_ascii_lower(&trim_exec(&chars_of(query)));
    let ghost hs = labels(history@);
    let ghost rs = labels(remote@);
    let mut out: Vec<PlaceRef> = Vec::new();
    let mut out_labels: Vec<Vec<char>> = Vec::new();
    let mut i: usize = 0;
    while i < history.len()
        invariant
            i <= history.len(),
            hs == labels(history@),
            out@ == history_hits(q@, hs, i as int),
            out_labels@.len() == out@.len(),
            forall|k: int| 0 <= k < out@.len() ==> #[trigger] views(out_labels@)[k] == label_of(out@[k], hs, rs),
        decreases history.len() - i,
    {
        let label = chars_of(history[i].as_str());
        assert(label@ == hs[i as int]);
        if contains_exec(&to_ascii_lower(&label), &q) {
            let ghost before = views(out_labels@);
            out.push(PlaceRef::History(i));
            proof { lemma_views_push(out_labels@, label); }
            out_labels.push(label);
        }
        i += 1;
    }
    let mut j: usize = 0;
    while j < remote.len()
        invariant
            j <= remote.len(),
            hs == labels(history@),
            rs == labels(remote@),
            out@ == merged(q@, hs, rs, limit as int, j as int),
            out_labels@.len() == out@.len(),
            forall|k: int| 0 <= k < out@.len() ==> #[trigger] views(out_labels@)[k] == label_of(out@[k], hs, rs),
        ensures
            j <= remote.len(),
            out@ == merged(q@, hs, rs, limit as int, j as int),
            j < remote.len() ==> out@.len() >= limit,
        decreases remote.len() - j,
    {
        if out.len() >= limit {
            break;
        }
        let label = chars_of(remote[j].as_str());
        assert(label@ == rs[j as int]);
        let mut already = false;
        let mut k: usize = 0;
        while k < out_labels.len()
            invariant
                k <= out_labels.len(),
                out_labels@.len() == out@.len(),
                forall|m: int| 0 <= m < out@.len() ==> #[trigger] views(out_labels@)[m] == label_of(out@[m], hs, rs),
                !already ==> forall|m: int| 0 <= m < k ==> !eq_ignore_ascii_case(#[trigger] label_of(out@[m], hs, rs), label@),
                already ==> already_listed(out@, label@, hs, rs),
            decreases out_labels.len() - k,
        {
            assert(views(out_labels@)[k as int] == out_labels@[k as int]@);
            if eq_ignore_case(&out_labels[k], &label) {
                already = true;
            }
            k += 1;
        }
        if !already {
            out.push(PlaceRef::Remote(j));
            proof { lemma_views_push(out_labels@, label); }
            out_labels.push(label);
        }
        j += 1;
    }
    proof { lemma_merged_stops(q@, hs, rs, limit as int, j as int, remote.len() as int); }
    if out.len() > limit {
        out.truncate(limit);
    }
    out
}

/// Once the merged list reaches `limit` it stays as it is.
proof fn lemma_merged_stops(q: Seq<char>, history: Seq<Seq<char>>, remote: Seq<Seq<char>>, limit: int, j: int, n: int)
    requires
        0 <= j <= n,
        j < n ==> merged(q, history, remote, limit, j).len() >= limit,
    ensures
        merged(q, history, remote, limit, n) == merged(q, history, remote, limit, j),
    decreases n - j,
{
    if j < n {
        lemma_merged_stops(q, history, remote, limit, j, n - 1);
    }
}

/// What a merged list looks like: at most `limit` rows; the history rows
/// first, each one holding the query; and no remote row whose label an
/// earlier row already shows, in any ASCII case.
pub proof fn law_merge_shape(query: Seq<char>, history: Seq<Seq<char>>, remote: Seq<Seq<char>>, limit: int)
    requires
        0 <= limit,
        history.len() <= usize::MAX,
        remote.len() <= usize::MAX,
    ensures
        ({
            let r = merge_places_spec(query, history, remote, limit);
            let q = ascii_lower(trim(query));
            &&& r.len() <= limit
            &&& forall|i: int, j: int| 0 <= i < j < r.len() && (#[trigger] r[j] is History) ==> #[trigger] r[i] is History
            &&& forall|j: int| 0 <= j < r.len() ==> (#[trigger] r[j] matches PlaceRef::History(h) ==> 0 <= h < history.len()
                && contains_sub(ascii_lower(history[h as int]), q))
            &&& forall|j: int| 0 <= j < r.len() ==> (#[trigger] r[j] matches PlaceRef::Remote(m) ==> 0 <= m < remote.len())
            &&& forall|i: int, j: int| 0 <= i < j < r.len() && (#[trigger] r[j] is Remote) ==> !eq_ignore_ascii_case(
                label_of(#[trigger] r[i], history, remote),
                label_of(r[j], history, remote),
            )
        }),
{
    let q = ascii_lower(trim(query));
    lemma_merged_shape(q, history, remote, limit, remote.len() as int);
    let m = merged(q, history, remote, limit, remote.len() as int);
    if m.len() > limit {
        lemma_shape_take(m, q, history, remote, remote.len() as int, limit);
    }
}

/// How many of the first `n` history rows hold `q` in their label, ASCII
/// case folded.
pub open spec fn count_holding(q: Seq<char>, history: Seq<Seq<char>>, n: int) -> nat
    decreases n,
{
    if n <= 0 {
        0
    } else {
        count_holding(q, history, n - 1) + if contains_sub(ascii_lower(history[n - 1]), q) { 1nat } else { 0nat }
    }
}

proof fn lemma_hits_count(q: Seq<char>, history: Seq<Seq<char>>, n: int)
    requires
        0 <= n <= history.len(),
        history.len() <= usize::MAX,
    ensures
        history_hits(q, history, n).len() == count_holding(q, history, n),
        forall|i: int| 0 <= i < n && contains_sub(ascii_lower(history[i]), q)
            ==> #[trigger] history_hits(q, history, n)[count_holding(q, history, i) as int] == PlaceRef::History(i as usize),
    decreases n,
{
    if n > 0 {
        lemma_hits_count(q, history, n - 1);
        let before = history_hits(q, history, n - 1);
        let now = history_hits(q, history, n);
        assert forall|i: int| 0 <= i < n && contains_sub(ascii_lower(history[i]), q)
            implies #[trigger] now[count_holding(q, history, i) as int] == PlaceRef::History(i as usize) by {
            if i < n - 1 {
                lemma_count_grows(q, history, i + 1, n - 1);
                assert(now[count_holding(q, history, i) as int] == before[count_holding(q, history, i) as int]);
            }
        }
    }
}

proof fn lemma_count_grows(q: Seq<char>, history: Seq<Seq<char>>, a: int, b: int)
    requires
        0 <= a <= b,
    ensures
        count_holding(q, history, a) <= count_holding(q, history, b),
    decreases b - a,
{
    if a < b {
        lemma_count_grows(q, history, a, b - 1);
    }
}

proof fn lemma_merged_keeps_hits(q: Seq<char>, history: Seq<Seq<char>>, remote: Seq<Seq<char>>, limit: int, m: int)
    requires
        0 <= m,
    ensures
        merged(q, history, remote, limit, m).len() >= history_hits(q, history, history.len() as int).len(),
        forall|k: int| 0 <= k < history_hits(q, history, history.len() as int).len()
            ==> #[trigger] merged(q, history, remote, limit, m)[k] == history_hits(q, history, history.len() as int)[k],
    decreases m,
{
    if m > 0 {
        lemma_merged_keeps_hits(q, history, remote, limit, m - 1);
        let out = merged(q, history, remote, limit, m - 1);
        let hits = history_hits(q, history, history.len() as int);
        assert forall|k: int| 0 <= k < hits.len() implies #[trigger] merged(q, history, remote, limit, m)[k] == hits[k] by {
            assert(out[k] == hits[k]);
        }
    }
}

/// No history row that holds the query is left out: each one is listed, in
/// history order — the row is at the place of how many matching rows come
/// before it — ahead of every remote row, as long as the limit leaves room.
pub proof fn law_every_matching_history_row_is_listed(
    query: Seq<char>,
    history: Seq<Seq<char>>,
    remote: Seq<Seq<char>>,
    limit: int,
    i: int,
)
    requires
        history.len() <= usize::MAX,
        0 <= i < history.len(),
        contains_sub(ascii_lower(history[i]), ascii_lower(trim(query))),
        count_holding(ascii_lower(trim(query)), history, i) < limit,
    ensures
        ({
            let r = merge_places_spec(query, history, remote, limit);
            let at = count_holding(ascii_lower(trim(query)), history, i) as int;
            at < r.len() && r[at] == PlaceRef::History(i as usize)
        }),
{
    let q = ascii_lower(trim(query));
    lemma_hits_count(q, history, history.len() as int);
    lemma_merged_keeps_hits(q, history, remote, limit, remote.len() as int);
    lemma_count_grows(q, history, i + 1, history.len() as int);
    let at = count_holding(q, history, i) as int;
    let hits = history_hits(q, history, history.len() as int);
    let out = merged(q, history, remote, limit, remote.len() as int);
    assert(hits[at] == PlaceRef::History(i as usize));
    assert(out[at] == hits[at]);
    if out.len() > limit {
        assert(out.take(limit)[at] == out[at]);
    }
}

pub open spec fn merge_ok(out: Seq<PlaceRef>, q: Seq<char>, history: Seq<Seq<char>>, remote: Seq<Seq<char>>, n: int) -> bool {
    &&& forall|i: int, j: int| 0 <= i < j < out.len() && (#[trigger] out[j] is History) ==> #[trigger] out[i] is History
    &&& forall|j: int| 0 <= j < out.len() ==> (#[trigger] out[j] matches PlaceRef::History(h) ==> 0 <= h < history.len()
        && contains_sub(ascii_lower(history[h as int]), q))
    &&& forall|j: int| 0 <= j < out.len() ==> (#[trigger] out[j] matches PlaceRef::Remote(m) ==> 0 <= m < n)
    &&& forall|i: int, j: int| 0 <= i < j < out.len() && (#[trigger] out[j] is Remote) ==> !eq_ignore_ascii_case(
        label_of(#[trigger] out[i], history, remote),
        label_of(out[j], history, remote),
    )
}

proof fn lemma_history_hits_shape(q: Seq<char>, history: Seq<Seq<char>>, remote: Seq<Seq<char>>, n: int)
    requires
        0 <= n <= history.len(),
        history.len() <= usize::MAX,
    ensures
        merge_ok(history_hits(q, history, n), q, history, remote, 0),
        forall|i: int| 0 <= i < history_hits(q, history, n).len() ==> #[trigger] history_hits(q, history, n)[i] is History,
    decreases n,
{
    if n > 0 {
        lemma_history_hits_shape(q, history, remote, n - 1);
        let hits = history_hits(q, history, n - 1);
        if contains_sub(ascii_lower(history[n - 1]), q) {
            let x = PlaceRef::History((n - 1) as usize);
            lemma_push_keeps_shape(hits, x, q, history, remote, 0);
            lemma_shape_narrow(hits.push(x), q, history, remote);
            assert forall|i: int| 0 <= i < hits.push(x).len() implies #[trigger] hits.push(x)[i] is History by {
                if i < hits.len() {
                    assert(hits.push(x)[i] == hits[i]);
                }
            }
        }
    }
}

proof fn lemma_shape_narrow(out: Seq<PlaceRef>, q: Seq<char>, history: Seq<Seq<char>>, remote: Seq<Seq<char>>)
    requires
        merge_ok(out, q, history, remote, 1),
        forall|i: int| 0 <= i < out.len() ==> #[trigger] out[i] is History,
    ensures
        merge_ok(out, q, history, remote, 0),
{
}

proof fn lemma_push_keeps_shape(out: Seq<PlaceRef>, x: PlaceRef, q: Seq<char>, history: Seq<Seq<char>>, remote: Seq<Seq<char>>, n: int)
    requires
        merge_ok(out, q, history, remote, n),
        x matches PlaceRef::History(h) ==> (0 <= h < history.len() && contains_sub(ascii_lower(history[h as int]), q)
            && forall|i: int| 0 <= i < out.len() ==> #[trigger] out[i] is History),
        x matches PlaceRef::Remote(m) ==> (0 <= m < n + 1 && !already_listed(out, label_of(x, history, remote), history, remote)),
    ensures
        merge_ok(out.push(x), q, history, remote, n + 1),
{
    let next = out.push(x);
    assert forall|i: int| 0 <= i < out.len() implies #[trigger] next[i] == out[i] by {}
    assert forall|i: int, j: int| 0 <= i < j < next.len() && (#[trigger] next[j] is History) implies #[trigger] next[i] is History by {
        if j < out.len() {
            assert(next[j] == out[j]);
            assert(next[i] == out[i]);
        } else {
            assert(next[i] == out[i]);
        }
    }
    assert forall|j: int| 0 <= j < next.len() implies (#[trigger] next[j] matches PlaceRef::History(h) ==> 0 <= h < history.len()
        && contains_sub(ascii_lower(history[h as int]), q)) by {
        if j < out.len() {
            assert(next[j] == out[j]);
        }
    }
    assert forall|j: int| 0 <= j < next.len() implies (#[trigger] next[j] matches PlaceRef::Remote(m) ==> 0 <= m < n + 1) by {
        if j < out.len() {
            assert(next[j] == out[j]);
        }
    }
    assert forall|i: int, j: int| 0 <= i < j < next.len() && (#[trigger] next[j] is Remote) implies !eq_ignore_ascii_case(
        label_of(#[trigger] next[i], history, remote),
        label_of(next[j], history, remote),
    ) by {
        assert(next[i] == out[i]);
        if j < out.len() {
            assert(next[j] == out[j]);
        } else {
            assert(next[j] == x);
            if eq_ignore_ascii_case(label_of(out[i], history, remote), label_of(x, history, remote)) {
                assert(already_listed(out, label_of(x, history, remote), history, remote));
            }
        }
    }
}

proof fn lemma_shape_widens(out: Seq<PlaceRef>, q: Seq<char>, history: Seq<Seq<char>>, remote: Seq<Seq<char>>, n: int)
    requires
        merge_ok(out, q, history, remote, n),
    ensures
        merge_ok(out, q, history, remote, n + 1),
{
}

proof fn lemma_shape_take(out: Seq<PlaceRef>, q: Seq<char>, history: Seq<Seq<char>>, remote: Seq<Seq<char>>, n: int, limit: int)
    requires
        merge_ok(out, q, history, remote, n),
        0 <= limit <= out.len(),
    ensures
        merge_ok(out.take(limit), q, history, remote, n),
{
    let t = out.take(limit);
    assert forall|i: int| 0 <= i < t.len() implies #[trigger] t[i] == out[i] by {}
    assert forall|i: int, j: int| 0 <= i < j < t.len() && (#[trigger] t[j] is History) implies #[trigger] t[i] is History by {
        assert(t[i] == out[i] && t[j] == out[j]);
    }
    assert forall|j: int| 0 <= j < t.len() implies (#[trigger] t[j] matches PlaceRef::History(h) ==> 0 <= h < history.len()
        && contains_sub(ascii_lower(history[h as int]), q)) by {
        assert(t[j] == out[j]);
    }
    assert forall|j: int| 0 <= j < t.len() implies (#[trigger] t[j] matches PlaceRef::Remote(m) ==> 0 <= m < n) by {
        assert(t[j] == out[j]);
    }
    assert forall|i: int, j: int| 0 <= i < j < t.len() && (#[trigger] t[j] is Remote) implies !eq_ignore_ascii_case(
        label_of(#[trigger] t[i], history, remote),
        label_of(t[j], history, remote),
    ) by {
        assert(t[i] == out[i] && t[j] == out[j]);
    }
}

proof fn lemma_merged_shape(q: Seq<char>, history: Seq<Seq<char>>, remote: Seq<Seq<char>>, limit: int, n: int)
    requires
        0 <= limit,
        history.len() <= usize::MAX,
        remote.len() <= usize::MAX,
        0 <= n <= remote.len(),
    ensures
        merge_ok(merged(q, history, remote, limit, n), q, history, remote, n),
    decreases n,
{
    if n == 0 {
        lemma_history_hits_shape(q, history, remote, history.len() as int);
    } else {
        lemma_merged_shape(q, history, remote, limit, n - 1);
        let out = merged(q, history, remote, limit, n - 1);
        if out.len() < limit && !already_listed(out, remote[n - 1], history, remote) {
            let x = PlaceRef::Remote((n - 1) as usize);
            assert(label_of(x, history, remote) == remote[n - 1]);
            lemma_push_keeps_shape(out, x, q, history, remote, n - 1);
        } else {
            lemma_shape_widens(out, q, history, remote, n - 1);
        }
    }
}

/// The value of an upper-case hex digit.
pub open spec fn hex_value(c: char) -> int {
    if '0' <= c && c <= '9' {
        c as int - '0' as int
    } else if 'A' <= c && c <= 'F' {
        c as int - 'A' as int + 10
    } else {
        0
    }
}

/// A URL's text read back into bytes: each `%XX` the byte it spells, every
/// other character its own code as a byte.
pub open spec fn percent_decode(t: Seq<char>) -> Seq<u8>
    decreases t.len(),
{
    if t.len() == 0 {
        Seq::empty()
    } else if t[0] == '%' && t.len() >= 3 {
        seq![(hex_value(t[1]) * 16 + hex_value(t[2])) as u8] + percent_decode(t.subrange(3, t.len() as int))
    } else {
        seq![t[0] as u8] + percent_decode(t.drop_first())
    }
}

proof fn lemma_hex_round_trip(n: int)
    requires
        0 <= n < 16,
    ensures
        hex_value(hex_digit(n)) == n,
{
}

proof fn lemma_pct_bytes_decode(bs: Seq<u8>, rest: Seq<char>)
    ensures
        percent_decode(pct_bytes(bs) + rest) == bs + percent_decode(rest),
    decreases bs.len(),
{
    if bs.len() > 0 {
        let b = bs[0] as int;
        lemma_hex_round_trip(b / 16);
        lemma_hex_round_trip(b % 16);
        let t = pct_bytes(bs) + rest;
        let tail = pct_bytes(bs.drop_first()) + rest;
        assert(t =~= seq!['%', hex_digit(b / 16), hex_digit(b % 16)] + tail);
        assert(t.subrange(3, t.len() as int) =~= tail);
        assert((hex_value(t[1]) * 16 + hex_value(t[2])) == b);
        lemma_pct_bytes_decode(bs.drop_first(), rest);
        assert(bs =~= seq![bs[0]] + bs.drop_first());
        assert(seq![bs[0]] + (bs.drop_first() + percent_decode(rest)) =~= bs + percent_decode(rest));
    }
}

proof fn lemma_encode_char_decode(c: char, rest: Seq<char>)
    ensures
        percent_decode(encode_char(c) + rest) == encode_scalar(c as u32) + percent_decode(rest),
{
    if unreserved(c) {
        let t = seq![c] + rest;
        assert(t.drop_first() =~= rest);
        vstd::utf8::is_ascii_chars_encode_utf8(seq![c]);
        assert(encode_utf8(seq![c]) == encode_scalar(c as u32) + encode_utf8(seq![c].drop_first()));
        assert(seq![c].drop_first() =~= Seq::<char>::empty());
        assert(encode_scalar(c as u32) =~= seq![c as u8]);
    } else {
        lemma_pct_bytes_decode(encode_scalar(c as u32), rest);
    }
}

proof fn lemma_encode_utf8_push(s: Seq<char>, c: char)
    ensures
        encode_utf8(s.push(c)) == encode_utf8(s) + encode_scalar(c as u32),
    decreases s.len(),
{
    if s.len() == 0 {
        assert(s.push(c).drop_first() =~= Seq::<char>::empty());
        assert(s.push(c)[0] == c);
        assert(encode_utf8(Seq::<char>::empty()) =~= Seq::<u8>::empty());
        assert(encode_utf8(s) =~= Seq::<u8>::empty());
        assert(encode_scalar(c as u32) + Seq::<u8>::empty() =~= encode_scalar(c as u32));
        assert(Seq::<u8>::empty() + encode_scalar(c as u32) =~= encode_scalar(c as u32));
    } else {
        lemma_encode_utf8_push(s.drop_first(), c);
        assert(s.push(c).drop_first() =~= s.drop_first().push(c));
        assert(s.push(c)[0] == s[0]);
        let h = encode_scalar(s[0] as u32);
        assert(h + (encode_utf8(s.drop_first()) + encode_scalar(c as u32))
            =~= (h + encode_utf8(s.drop_first())) + encode_scalar(c as u32));
    }
}

proof fn lemma_encoded_decode(s: Seq<char>, rest: Seq<char>)
    ensures
        percent_decode(percent_encode_spec(s) + rest) == encode_utf8(s) + percent_decode(rest),
    decreases s.len(),
{
    if s.len() == 0 {
        assert(percent_encode_spec(s) + rest =~= rest);
        assert(Seq::<u8>::empty() + percent_decode(rest) =~= percent_decode(rest));
    } else {
        let init = s.drop_last();
        let c = s.last();
        lemma_encode_char_decode(c, rest);
        lemma_encoded_decode(init, encode_char(c) + rest);
        assert(percent_encode_spec(s) + rest =~= percent_encode_spec(init) + (encode_char(c) + rest));
        lemma_encode_utf8_push(init, c);
        assert(init.push(c) =~= s);
    }
}

/// An upper-case hex digit, as `%XX` writes one.
pub open spec fn is_upper_hex(c: char) -> bool {
    ('0' <= c && c <= '9') || ('A' <= c && c <= 'F')
}

/// Whether a text is a run of URL tokens: unreserved characters, and `%`
/// followed by two upper-case hex digits.
pub open spec fn url_tokens(t: Seq<char>) -> bool
    decreases t.len(),
{
    if t.len() == 0 {
        true
    } else if unreserved(t[0]) {
        url_tokens(t.drop_first())
    } else {
        t.len() >= 3 && t[0] == '%' && is_upper_hex(t[1]) && is_upper_hex(t[2])
            && url_tokens(t.subrange(3, t.len() as int))
    }
}

proof fn lemma_pct_bytes_tokens(bs: Seq<u8>, rest: Seq<char>)
    requires
        url_tokens(rest),
    ensures
        url_tokens(pct_bytes(bs) + rest),
    decreases bs.len(),
{
    if bs.len() > 0 {
        let b = bs[0] as int;
        let t = pct_bytes(bs) + rest;
        let tail = pct_bytes(bs.drop_first()) + rest;
        assert(t =~= seq!['%', hex_digit(b / 16), hex_digit(b % 16)] + tail);
        assert(t.subrange(3, t.len() as int) =~= tail);
        assert(!unreserved('%'));
        lemma_pct_bytes_tokens(bs.drop_first(), rest);
    }
}

proof fn lemma_encoded_tokens(s: Seq<char>, rest: Seq<char>)
    requires
        url_tokens(rest),
    ensures
        url_tokens(percent_encode_spec(s) + rest),
    decreases s.len(),
{
    if s.len() == 0 {
        assert(percent_encode_spec(s) + rest =~= rest);
    } else {
        let c = s.last();
        if unreserved(c) {
            assert((seq![c] + rest).drop_first() =~= rest);
        } else {
            lemma_pct_bytes_tokens(encode_scalar(c as u32), rest);
        }
        lemma_encoded_tokens(s.drop_last(), encode_char(c) + rest);
        assert(percent_encode_spec(s) + rest =~= percent_encode_spec(s.drop_last()) + (encode_char(c) + rest));
    }
}

/// What percent-encoding writes is a run of URL tokens — unreserved
/// characters and `%XX` escapes in upper-case hex — and a text of
/// unreserved characters alone is written as it is.
pub proof fn law_percent_encoding_shape(s: Seq<char>)
    ensures
        url_tokens(percent_encode_spec(s)),
        (forall|i: int| 0 <= i < s.len() ==> unreserved(#[trigger] s[i])) ==> percent_encode_spec(s) == s,
    decreases s.len(),
{
    lemma_encoded_tokens(s, Seq::empty());
    assert(percent_encode_spec(s) + Seq::<char>::empty() =~= percent_encode_spec(s));
    if s.len() > 0 {
        law_percent_encoding_shape(s.drop_last());
        if forall|i: int| 0 <= i < s.len() ==> unreserved(#[trigger] s[i]) {
            assert forall|i: int| 0 <= i < s.drop_last().len() implies unreserved(#[trigger] s.drop_last()[i]) by {
                assert(s.drop_last()[i] == s[i]);
            }
            assert(unreserved(s[s.len() - 1]));
            assert(s.drop_last() + seq![s.last()] =~= s);
        }
    }
}

/// Percent-encoding loses nothing: reading every `%XX` of the encoded text
/// back into its byte, and every other character as its own byte, gives
/// exactly the UTF-8 bytes of the text encoded.
pub proof fn law_percent_encoding_reads_back(s: Seq<char>)
    ensures
        percent_decode(percent_encode_spec(s)) == encode_utf8(s),
{
    lemma_encoded_decode(s, Seq::empty());
    assert(percent_encode_spec(s) + Seq::<char>::empty() =~= percent_encode_spec(s));
    assert(encode_utf8(s) + percent_decode(Seq::<char>::empty()) =~= encode_utf8(s));
}


/// The Photon request carries the typed query and nothing that places the
/// user: no `lat=` and no `lon=`, whatever was typed.
pub proof fn law_photon_url_has_no_location(q: Seq<char>)
    ensures
        !contains_sub(photon_url_spec(q), "lat="@),
        !contains_sub(photon_url_spec(q), "lon="@),
{
    reveal_strlit("https://photon.komoot.io/api?q=");
    reveal_strlit("&limit=8&lang=en");
    reveal_strlit("lat=");
    reveal_strlit("lon=");
    let pre = "https://photon.komoot.io/api?q="@;
    let post = "&limit=8&lang=en"@;
    let e = percent_encode_spec(q);
    lemma_encoded_has_no_equals(q);
    let url = photon_url_spec(q);
    assert(url == pre + e + post);
    assert forall|i: int| !occurs_at(url, "lat="@, i) && !occurs_at(url, "lon="@, i) by {
        if 0 <= i && i + 4 <= url.len() {
            let k = i + 3;
            if occurs_at(url, "lat="@, i) {
                assert(url.subrange(i, i + 4)[3] == url[k]);
                assert(url[k] == '=');
                assert(url.subrange(i, i + 4)[2] == url[k - 1]);
                assert(url[k - 1] == 't');
                assert(url.subrange(i, i + 4)[1] == url[k - 2]);
                assert(url[k - 2] == 'a');
                lemma_where_equals_sits(q, k);
            }
            if occurs_at(url, "lon="@, i) {
                assert(url.subrange(i, i + 4)[3] == url[k]);
                assert(url[k] == '=');
                assert(url.subrange(i, i + 4)[2] == url[k - 1]);
                assert(url[k - 1] == 'n');
                assert(url.subrange(i, i + 4)[1] == url[k - 2]);
                assert(url[k - 2] == 'o');
                lemma_where_equals_sits(q, k);
            }
        }
    }
}

/// Every `=` in the request sits in the fixed text around the query: the
/// one that ends `q=`, and the two of `limit=8` and `lang=en`.
proof fn lemma_where_equals_sits(q: Seq<char>, k: int)
    requires
        0 <= k < photon_url_spec(q).len(),
        photon_url_spec(q)[k] == '=',
    ensures
        ({
            let url = photon_url_spec(q);
            let base = 31 + percent_encode_spec(q).len();
            (k == 30 && url[k - 1] == 'q') || (k == base + 6 && url[k - 1] == 't' && url[k - 2] == 'i' && url[k - 3]
                == 'm') || (k == base + 13 && url[k - 1] == 'g' && url[k - 2] == 'n')
        }),
{
    reveal_strlit("https://photon.komoot.io/api?q=");
    reveal_strlit("&limit=8&lang=en");
    let pre = "https://photon.komoot.io/api?q="@;
    let post = "&limit=8&lang=en"@;
    let e = percent_encode_spec(q);
    lemma_encoded_has_no_equals(q);
    let url = photon_url_spec(q);
    assert(pre.len() == 31);
    assert(post.len() == 16);
    if k < 31 {
        assert(url[k] == pre[k]);
        assert(url[k - 1] == pre[k - 1]);
    } else if k < 31 + e.len() {
        assert(url[k] == e[k - 31]);
    } else {
        let m = k - 31 - e.len();
        assert(url[k] == post[m]);
        if m >= 1 {
            assert(url[k - 1] == post[m - 1]);
        }
        if m >= 2 {
            assert(url[k - 2] == post[m - 2]);
        }
        if m >= 3 {
            assert(url[k - 3] == post[m - 3]);
        }
    }
}

proof fn lemma_pct_bytes_no_equals(bs: Seq<u8>)
    ensures
        !pct_bytes(bs).contains('='),
    decreases bs.len(),
{
    if bs.len() > 0 {
        lemma_pct_bytes_no_equals(bs.drop_first());
        let head = seq!['%', hex_digit(bs[0] as int / 16), hex_digit(bs[0] as int % 16)];
        assert(!head.contains('=')) by {
            assert(head[1] != '=' && head[2] != '=');
        }
        assert forall|i: int| 0 <= i < pct_bytes(bs).len() implies pct_bytes(bs)[i] != '=' by {
            if i >= 3 {
                assert(pct_bytes(bs)[i] == pct_bytes(bs.drop_first())[i - 3]);
            } else {
                assert(pct_bytes(bs)[i] == head[i]);
            }
        }
    }
}

proof fn lemma_encoded_has_no_equals(q: Seq<char>)
    ensures
        !percent_encode_spec(q).contains('='),
    decreases q.len(),
{
    if q.len() > 0 {
        lemma_encoded_has_no_equals(q.drop_last());
        let c = q.last();
        lemma_pct_bytes_no_equals(encode_scalar(c as u32));
        let prev = percent_encode_spec(q.drop_last());
        let tail = encode_char(c);
        assert forall|i: int| 0 <= i < percent_encode_spec(q).len() implies percent_encode_spec(q)[i] != '=' by {
            if i < prev.len() {
                assert(percent_encode_spec(q)[i] == prev[i]);
            } else {
                assert(percent_encode_spec(q)[i] == tail[i - prev.len()]);
            }
        }
    }
}

/// A place's seven fields, in the order a label lists them.
pub open spec fn place_fields(p: PlaceProps) -> Seq<Option<Seq<char>>> {
    seq![
        text_of(p.name),
        text_of(p.housenumber),
        text_of(p.street),
        text_of(p.city),
        text_of(p.state),
        text_of(p.postcode),
        text_of(p.country),
    ]
}

proof fn lemma_sub_at(s: Seq<char>, p: Seq<char>, i: int)
    requires
        0 <= i && i + p.len() <= s.len() && s.subrange(i, i + p.len()) == p,
    ensures
        contains_sub(s, p),
{
    assert(occurs_at(s, p, i));
}

proof fn lemma_sub_extend(x: Seq<char>, y: Seq<char>, p: Seq<char>)
    requires
        contains_sub(x, p),
    ensures
        contains_sub(x + y, p),
        contains_sub(y + x, p),
{
    let i = choose|i: int| occurs_at(x, p, i);
    assert((x + y).subrange(i, i + p.len()) =~= x.subrange(i, i + p.len()));
    lemma_sub_at(x + y, p, i);
    assert((y + x).subrange(y.len() + i, y.len() + i + p.len()) =~= x.subrange(i, i + p.len()));
    lemma_sub_at(y + x, p, y.len() + i);
}

proof fn lemma_sub_self(x: Seq<char>)
    ensures
        contains_sub(x, x),
{
    assert(x.subrange(0, x.len() as int) =~= x);
    lemma_sub_at(x, x, 0);
}

proof fn lemma_sub_trans(a: Seq<char>, b: Seq<char>, c: Seq<char>)
    requires
        contains_sub(a, b),
        contains_sub(b, c),
    ensures
        contains_sub(a, c),
{
    let i = choose|i: int| occurs_at(a, b, i);
    let j = choose|j: int| occurs_at(b, c, j);
    assert(a.subrange(i + j, i + j + c.len()) =~= b.subrange(j, j + c.len())) by {
        assert forall|k: int| 0 <= k < c.len() implies #[trigger] a.subrange(i + j, i + j + c.len())[k] == b.subrange(j, j + c.len())[k] by {
            assert(a.subrange(i, i + b.len())[j + k] == b[j + k]);
        }
    }
    lemma_sub_at(a, c, i + j);
}

proof fn lemma_sub_lower(a: Seq<char>, b: Seq<char>)
    requires
        contains_sub(a, b),
    ensures
        contains_sub(ascii_lower(a), ascii_lower(b)),
{
    let i = choose|i: int| occurs_at(a, b, i);
    assert(ascii_lower(a).subrange(i, i + b.len()) =~= ascii_lower(b)) by {
        assert forall|k: int| 0 <= k < b.len() implies #[trigger] ascii_lower(a).subrange(i, i + b.len())[k] == ascii_lower(b)[k] by {
            assert(a.subrange(i, i + b.len())[k] == b[k]);
        }
    }
    lemma_sub_at(ascii_lower(a), ascii_lower(b), i);
}

proof fn lemma_join_holds(parts: Seq<Seq<char>>, sep: Seq<char>, k: int)
    requires
        0 <= k < parts.len(),
    ensures
        contains_sub(join(parts, sep), parts[k]),
    decreases parts.len(),
{
    if parts.len() == 1 {
        lemma_sub_self(parts[0]);
    } else if k == parts.len() - 1 {
        lemma_sub_self(parts.last());
        lemma_sub_extend(parts.last(), join(parts.drop_last(), sep) + sep, parts.last());
    } else {
        lemma_join_holds(parts.drop_last(), sep, k);
        lemma_sub_extend(join(parts.drop_last(), sep), sep, parts[k]);
        lemma_sub_extend(join(parts.drop_last(), sep) + sep, parts.last(), parts[k]);
    }
}

proof fn lemma_kept_covers(c: Seq<Option<Seq<char>>>, i: int, x: Seq<char>)
    requires
        0 <= i < c.len(),
        c[i] == Some(x),
    ensures
        exists|k: int| 0 <= k < kept_parts(c).len() && ascii_lower(#[trigger] kept_parts(c)[k]) == ascii_lower(x),
    decreases c.len(),
{
    let before = kept_parts(c.drop_last());
    if i == c.len() - 1 {
        if before.len() > 0 && eq_ignore_ascii_case(before.last(), x) {
            assert(kept_parts(c)[before.len() - 1] == before.last());
        } else {
            assert(kept_parts(c)[before.len() as int] == x);
        }
    } else {
        lemma_kept_covers(c.drop_last(), i, x);
        let k = choose|k: int| 0 <= k < before.len() && ascii_lower(#[trigger] before[k]) == ascii_lower(x);
        assert(kept_parts(c)[k] == before[k]);
    }
}

/// Every field of a place that is not blank shows in its label, trimmed
/// and up to ASCII case: a part is dropped only when it repeats the one
/// before it, which then shows it. A state with no postcode, or a house
/// number with no street, is a part of its own.
pub proof fn law_every_field_shows_in_the_label(p: PlaceProps, i: int, t: Seq<char>)
    requires
        0 <= i < 7,
        field(place_fields(p)[i]) == Some(t),
    ensures
        format_label_spec(p) matches Some(label) && contains_sub(ascii_lower(label), ascii_lower(t)),
{
    let c = candidates(p);
    let sp = seq![' '];
    // The candidate that carries the field, and the field within it.
    let ci = if i == 0 { 0int } else if i <= 2 { 1int } else if i == 3 { 2int } else if i <= 5 { 3int } else { 4int };
    let part = c[ci]->0;
    assert(c[ci] is Some);
    assert(contains_sub(part, t)) by {
        lemma_sub_self(t);
        if i == 1 || i == 4 {
            let other = if i == 1 { field(text_of(p.street)) } else { field(text_of(p.postcode)) };
            if let Some(y) = other {
                lemma_sub_extend(t, sp + y, t);
                assert(part == t + (sp + y));
            }
        } else if i == 2 || i == 5 {
            let other = if i == 2 { field(text_of(p.housenumber)) } else { field(text_of(p.state)) };
            if let Some(x) = other {
                lemma_sub_extend(t, x + sp, t);
                assert(part == (x + sp) + t);
            }
        }
    }
    lemma_kept_covers(c, ci, part);
    let parts = kept_parts(c);
    let k = choose|k: int| 0 <= k < parts.len() && ascii_lower(#[trigger] parts[k]) == ascii_lower(part);
    let label = join(parts, ", "@);
    lemma_join_holds(parts, ", "@, k);
    lemma_sub_lower(label, parts[k]);
    lemma_sub_lower(part, t);
    lemma_sub_trans(ascii_lower(label), ascii_lower(part), ascii_lower(t));
}

/// A label's parts are never empty and never repeat the part before them
/// (in any ASCII case): empty parts leave no comma runs behind.
pub proof fn law_label_parts(p: PlaceProps)
    ensures
        forall|i: int| 0 <= i < kept_parts(candidates(p)).len() ==> (#[trigger] kept_parts(candidates(p))[i]).len() > 0,
        forall|i: int| 0 < i < kept_parts(candidates(p)).len() ==> !eq_ignore_ascii_case(
            kept_parts(candidates(p))[i - 1],
            #[trigger] kept_parts(candidates(p))[i],
        ),
{
    let c = candidates(p);
    assert forall|i: int| 0 <= i < c.len() implies (#[trigger] c[i] matches Some(x) ==> x.len() > 0) by {}
    lemma_kept_parts(c);
}

proof fn lemma_kept_parts(c: Seq<Option<Seq<char>>>)
    requires
        forall|i: int| 0 <= i < c.len() ==> (#[trigger] c[i] matches Some(x) ==> x.len() > 0),
    ensures
        forall|i: int| 0 <= i < kept_parts(c).len() ==> (#[trigger] kept_parts(c)[i]).len() > 0,
        forall|i: int| 0 < i < kept_parts(c).len() ==> !eq_ignore_ascii_case(kept_parts(c)[i - 1], #[trigger] kept_parts(c)[i]),
    decreases c.len(),
{
    if c.len() > 0 {
        assert forall|i: int| 0 <= i < c.drop_last().len() implies (#[trigger] c.drop_last()[i] matches Some(x) ==> x.len() > 0) by {
            assert(c.drop_last()[i] == c[i]);
        }
        lemma_kept_parts(c.drop_last());
        assert(c.last() == c[c.len() - 1]);
        let parts = kept_parts(c.drop_last());
        if let Some(part) = c.last() {
            if !(parts.len() > 0 && eq_ignore_ascii_case(parts.last(), part)) {
                let next = parts.push(part);
                assert forall|i: int| 0 <= i < next.len() implies (#[trigger] next[i]).len() > 0 by {
                    if i < parts.len() {
                        assert(next[i] == parts[i]);
                    }
                }
                assert forall|i: int| 0 < i < next.len() implies !eq_ignore_ascii_case(next[i - 1], #[trigger] next[i]) by {
                    assert(next[i - 1] == parts[i - 1]);
                    if i < parts.len() {
                        assert(next[i] == parts[i]);
                    }
                }
            }
        }
    }
}

// ------------------------------------------------------------------ demo

pub open spec fn demo_labels() -> Seq<Seq<char>> {
    seq![
        "Banbury Golf Course, 2626 South Marypost Place, Eagle, Idaho 83616, United States"@,
        "Room 4A"@,
        "Room 4A, Sofia, Bulgaria"@,
        "Sofia Office"@,
        "Eagle, Idaho, United States"@,
    ]
}

/// The canned labels among the first `n` that hold `q`.
pub open spec fn demo_hits(q: Seq<char>, n: int) -> Seq<Seq<char>>
    decreases n,
{
    if n <= 0 {
        Seq::empty()
    } else {
        let hits = demo_hits(q, n - 1);
        if contains_sub(ascii_lower(demo_labels()[n - 1]), q) {
            hits.push(demo_labels()[n - 1])
        } else {
            hits
        }
    }
}

/// Demo never networks: these labels stand in for Photon, each kept when
/// it holds the trimmed query (ASCII case folded).
pub fn demo_canned(query: &str) -> (r: Vec<String>)
    ensures
        labels(r@) == demo_hits(ascii_lower(trim(query@)), 5),
{
    let q = to_ascii_lower(&trim_exec(&chars_of(query)));
    let canned: Vec<&str> = vec![
        "Banbury Golf Course, 2626 South Marypost Place, Eagle, Idaho 83616, United States",
        "Room 4A",
        "Room 4A, Sofia, Bulgaria",
        "Sofia Office",
        "Eagle, Idaho, United States",
    ];
    assert(canned@.map_values(|s: &str| s@) =~= demo_labels());
    let mut out: Vec<String> = Vec::new();
    let mut i: usize = 0;
    while i < canned.len()
        invariant
            i <= canned.len(),
            canned@.len() == 5,
            canned@.map_values(|s: &str| s@) == demo_labels(),
            labels(out@) == demo_hits(q@, i as int),
        decreases canned.len() - i,
    {
        let label = chars_of(canned[i]);
        assert(label@ == demo_labels()[i as int]);
        if contains_exec(&to_ascii_lower(&label), &q) {
            let s = string_of(&label);
            let ghost before = out@;
            out.push(s);
            assert(labels(out@) =~= labels(before).push(s@));
        }
        i += 1;
    }
    out
}

// ------------------------------------------------------------- the search

/// What a Location query leads to.
#[derive(Debug, Clone, PartialEq)]
pub enum SearchPlan {
    /// Too short to search: no rows at all.
    Nothing,
    /// History only — with the demo's canned rows standing in for Photon
    /// when `demo_remote` — for the trimmed `query`.
    Local { query: String, demo_remote: bool },
    /// History and Photon, asked at `url`, for the trimmed `query`.
    Fetch { query: String, url: String },
}

/// The two gates a Photon request passes: the user opted in outside demo
/// mode, and the query holds no URL. Demo mode stands in for Photon behind
/// the same two gates.
pub fn plan_search(query: &str, demo: bool, enabled: bool) -> (r: SearchPlan)
    ensures
        !searchable(trim(query@)) ==> r == SearchPlan::Nothing,
        searchable(trim(query@)) && (demo || !enabled || has_url(trim(query@))) ==> (r matches SearchPlan::Local { query: q, demo_remote }
            && q@ == trim(query@) && demo_remote == (demo && enabled && !has_url(trim(query@)))),
        searchable(trim(query@)) && !demo && enabled && !has_url(trim(query@)) ==> (r matches SearchPlan::Fetch { query: q, url }
            && q@ == trim(query@) && url@ == photon_url_spec(trim(query@))),
{
    let q = string_of(&trim_exec(&chars_of(query)));
    if !query_is_searchable(q.as_str()) {
        return SearchPlan::Nothing;
    }
    let url_in = query_has_url(q.as_str());
    if !may_fetch_photon(demo, enabled) || url_in {
        let demo_remote = demo && enabled && !url_in;
        return SearchPlan::Local { query: q, demo_remote };
    }
    let url = photon_url(q.as_str());
    SearchPlan::Fetch { query: q, url }
}

} // verus!
