//! vCard, read for exactly two facts: a name and the addresses it answers to.
//!
//! The attendee field needs a person's name and the mailboxes they can be
//! invited at, so this parser takes `FN`, `N` and `EMAIL` (and `UID`, which
//! identifies the card) and leaves everything else where it found it.
//!
//! vCard 2.1, 3.0 and 4.0 all fold and escape the way iCalendar does: a line
//! that begins with a space or a tab continues the one before it, `\n` is
//! a newline, and `\,` `\;` `\\` stand for the characters themselves.

use vstd::prelude::*;
use crate::text::{
    ascii_lower, ascii_upper, chars_eq, chars_of, contains_char, eq_ignore_ascii_case, eq_ignore_case,
    holds_chars, lemma_split_char_nonempty, lemma_views_push, push_all, slice_chars, split_char,
    split_exec, starts_with, starts_with_exec, string_of, to_ascii_lower, to_ascii_upper, trim,
    trim_exec, views,
};

verus! {

/// One person, as the attendee field needs them.
#[derive(Debug, Clone, PartialEq)]
pub struct Contact {
    /// The card's own `UID` when it has one.
    pub uid: Option<String>,
    /// `FN` when the card has one, else a name assembled from `N`.
    pub name: Option<String>,
    /// Every `EMAIL` on the card, in the order it appeared, lowercased and
    /// de-duplicated. A card with none is not a contact.
    pub emails: Vec<String>,
}

/// A contact as values.
pub struct ContactView {
    pub uid: Option<Seq<char>>,
    pub name: Option<Seq<char>>,
    pub emails: Seq<Seq<char>>,
}

pub open spec fn opt_string(o: Option<String>) -> Option<Seq<char>> {
    match o {
        Some(s) => Some(s@),
        None => None,
    }
}

pub open spec fn strings(v: Seq<String>) -> Seq<Seq<char>> {
    v.map_values(|s: String| s@)
}

impl View for Contact {
    type V = ContactView;

    open spec fn view(&self) -> ContactView {
        ContactView { uid: opt_string(self.uid), name: opt_string(self.name), emails: strings(self.emails@) }
    }
}

pub open spec fn contact_views(v: Seq<Contact>) -> Seq<ContactView> {
    v.map_values(|c: Contact| c@)
}

/// What has been read of one card so far.
pub struct CardModel {
    pub uid: Option<Seq<char>>,
    pub fn_name: Option<Seq<char>>,
    pub n_name: Option<Seq<char>>,
    pub emails: Seq<Seq<char>>,
}

pub open spec fn empty_card() -> CardModel {
    CardModel { uid: None, fn_name: None, n_name: None, emails: Seq::empty() }
}

// ---------------------------------------------------------------- folding

/// One raw line (between `\n`s) added to the unfolded lines read so far: a
/// trailing `\r` goes, a leading space or tab continues the previous line,
/// and an empty line is dropped.
pub open spec fn unfold_step(out: Seq<Seq<char>>, raw: Seq<char>) -> Seq<Seq<char>> {
    let line = if raw.len() > 0 && raw.last() == '\r' { raw.drop_last() } else { raw };
    if line.len() > 0 && (line[0] == ' ' || line[0] == '\t') && out.len() > 0 {
        out.update(out.len() - 1, out.last() + line.drop_first())
    } else if line.len() > 0 {
        out.push(line)
    } else {
        out
    }
}

pub open spec fn unfold_raws(raws: Seq<Seq<char>>) -> Seq<Seq<char>>
    decreases raws.len(),
{
    if raws.len() == 0 {
        Seq::empty()
    } else {
        unfold_step(unfold_raws(raws.drop_last()), raws.last())
    }
}

/// The logical lines of a body.
pub open spec fn unfolded(src: Seq<char>) -> Seq<Seq<char>> {
    unfold_raws(split_char(src, '\n'))
}

// ------------------------------------------------------- property lines

/// The index of the first `:` outside double quotes, scanning from `i`
/// with `quoted` telling whether a quote is open there.
pub open spec fn colon_from(line: Seq<char>, i: int, quoted: bool) -> Option<int>
    decreases line.len() - i,
{
    if i < 0 || i >= line.len() {
        None
    } else if line[i] == '"' {
        colon_from(line, i + 1, !quoted)
    } else if line[i] == ':' && !quoted {
        Some(i)
    } else {
        colon_from(line, i + 1, quoted)
    }
}

/// `NAME;PARAM=x;PARAM=y:value`: the trimmed name, the trimmed parameters
/// and the raw value, or nothing for a line with no unquoted colon or no
/// name.
pub open spec fn property_parts(line: Seq<char>) -> Option<(Seq<char>, Seq<Seq<char>>, Seq<char>)> {
    match colon_from(line, 0, false) {
        None => None,
        Some(c) => {
            let parts = split_char(line.take(c), ';');
            let name = trim(parts[0]);
            if name.len() == 0 {
                None
            } else {
                Some((name, parts.drop_first().map_values(|p: Seq<char>| trim(p)), line.skip(c + 1)))
            }
        },
    }
}

/// Escapes resolved: `\n` and `\N` are a newline, `\x` is `x`, and a lone
/// trailing backslash is dropped.
pub open spec fn unescape_raw(s: Seq<char>) -> Seq<char>
    decreases s.len(),
{
    if s.len() == 0 {
        Seq::empty()
    } else if s[0] != '\\' {
        seq![s[0]] + unescape_raw(s.drop_first())
    } else if s.len() == 1 {
        Seq::empty()
    } else {
        let c = if s[1] == 'n' || s[1] == 'N' { '\n' } else { s[1] };
        seq![c] + unescape_raw(s.subrange(2, s.len() as int))
    }
}

pub open spec fn unescaped(s: Seq<char>) -> Seq<char> {
    trim(unescape_raw(s))
}

/// `N` is Family;Given;Middle;Prefix;Suffix: the name it gives is the
/// non-empty ones of "Given Family".
pub open spec fn n_joined(value: Seq<char>) -> Seq<char> {
    let parts = split_char(value, ';');
    let family = trim(parts[0]);
    let given = if parts.len() > 1 { trim(parts[1]) } else { Seq::<char>::empty() };
    if given.len() > 0 && family.len() > 0 {
        given + seq![' '] + family
    } else if given.len() > 0 {
        given
    } else {
        family
    }
}

/// The name an `N` value gives is made of its given and family names alone
/// (its first two `;` parts, trimmed): it is there whenever either is; it
/// is the given name when there is no family name and the family name when
/// there is no given name; with both it is "Given Family", one space apart.
pub proof fn law_n_names_given_then_family(value: Seq<char>)
    ensures
        ({
            let parts = split_char(value, ';');
            let family = trim(parts[0]);
            let given = if parts.len() > 1 { trim(parts[1]) } else { Seq::<char>::empty() };
            &&& (given.len() > 0 || family.len() > 0) <==> n_joined(value).len() > 0
            &&& family.len() == 0 ==> n_joined(value) == given
            &&& given.len() == 0 ==> n_joined(value) == family
            &&& given.len() > 0 && family.len() > 0 ==> n_joined(value) == given + seq![' '] + family
        }),
{
    crate::text::lemma_split_char_nonempty(value, ';');
}

/// An `EMAIL` value as the address it names: a `mailto:` or `MAILTO:`
/// prefix dropped, trimmed, lowercased.
pub open spec fn email_address(value: Seq<char>) -> Seq<char> {
    let a = trim(value);
    let stripped = if starts_with(a, "mailto:"@) || starts_with(a, "MAILTO:"@) {
        a.skip(7)
    } else {
        a
    };
    ascii_lower(trim(stripped))
}

pub open spec fn quoted_printable(params: Seq<Seq<char>>) -> bool {
    exists|j: int| 0 <= j < params.len() && eq_ignore_ascii_case(params[j], "ENCODING=QUOTED-PRINTABLE"@)
}

/// The property a name stands for: an Apple `group.` prefix dropped, any case.
pub open spec fn property_of(name: Seq<char>) -> Seq<char> {
    ascii_upper(split_char(name, '.').last())
}

/// One content line of a card, read into what the card has so far.
pub open spec fn read_line(card: CardModel, line: Seq<char>) -> CardModel {
    match property_parts(line) {
        None => card,
        Some((name, params, raw)) => {
            let prop = property_of(name);
            let value = unescaped(trim(raw));
            if value.len() == 0 {
                card
            } else if prop == "UID"@ {
                if card.uid is None { CardModel { uid: Some(value), ..card } } else { card }
            } else if prop == "FN"@ {
                if card.fn_name is None { CardModel { fn_name: Some(value), ..card } } else { card }
            } else if prop == "N"@ {
                let joined = n_joined(value);
                if joined.len() > 0 && card.n_name is None {
                    CardModel { n_name: Some(joined), ..card }
                } else {
                    card
                }
            } else if prop == "EMAIL"@ {
                let address = email_address(value);
                if address.contains('@') && !quoted_printable(params) && !card.emails.contains(address) {
                    CardModel { emails: card.emails.push(address), ..card }
                } else {
                    card
                }
            } else {
                card
            }
        },
    }
}

/// A finished card: a contact when it carries an address.
pub open spec fn finish(card: CardModel) -> Option<ContactView> {
    if card.emails.len() == 0 {
        None
    } else {
        Some(ContactView {
            uid: card.uid,
            name: if card.fn_name is Some { card.fn_name } else { card.n_name },
            emails: card.emails,
        })
    }
}

/// One logical line of a body read into the contacts found so far and the
/// card open at that point.
pub open spec fn parse_step(st: (Seq<ContactView>, Option<CardModel>), line: Seq<char>) -> (Seq<ContactView>, Option<CardModel>) {
    let upper = ascii_upper(line);
    if starts_with(upper, "BEGIN:VCARD"@) {
        (st.0, Some(empty_card()))
    } else if starts_with(upper, "END:VCARD"@) {
        match st.1 {
            Some(card) => match finish(card) {
                Some(c) => (st.0.push(c), None),
                None => (st.0, None),
            },
            None => (st.0, None),
        }
    } else {
        match st.1 {
            Some(card) => (st.0, Some(read_line(card, line))),
            None => st,
        }
    }
}

pub open spec fn parse_lines(lines: Seq<Seq<char>>) -> (Seq<ContactView>, Option<CardModel>)
    decreases lines.len(),
{
    if lines.len() == 0 {
        (Seq::empty(), None)
    } else {
        parse_step(parse_lines(lines.drop_last()), lines.last())
    }
}

/// Every contact a body holds.
pub open spec fn parse_cards_spec(src: Seq<char>) -> Seq<ContactView> {
    parse_lines(unfolded(src)).0
}

// ------------------------------------------------------------- the laws

pub open spec fn no_upper(s: Seq<char>) -> bool {
    forall|k: int| 0 <= k < s.len() ==> !('A' <= #[trigger] s[k] && s[k] <= 'Z')
}

/// Addresses as the attendee field keeps them: each a mailbox with an `@`,
/// lowercased, and none twice.
pub open spec fn emails_wf(emails: Seq<Seq<char>>) -> bool {
    &&& forall|i: int| 0 <= i < emails.len() ==> (#[trigger] emails[i]).contains('@')
    &&& forall|i: int| 0 <= i < emails.len() ==> no_upper(#[trigger] emails[i])
    &&& forall|i: int, j: int| 0 <= i < j < emails.len() ==> #[trigger] emails[i] != #[trigger] emails[j]
}

pub open spec fn card_wf(c: CardModel) -> bool {
    &&& emails_wf(c.emails)
    &&& (c.uid matches Some(u) ==> u.len() > 0)
    &&& (c.fn_name matches Some(n) ==> n.len() > 0)
    &&& (c.n_name matches Some(n) ==> n.len() > 0)
}

/// What every contact the parser hands out satisfies.
pub open spec fn contact_wf(c: ContactView) -> bool {
    &&& c.emails.len() > 0
    &&& emails_wf(c.emails)
    &&& (c.uid matches Some(u) ==> u.len() > 0)
    &&& (c.name matches Some(n) ==> n.len() > 0)
}

pub proof fn lemma_ascii_lower_no_upper(s: Seq<char>)
    ensures
        no_upper(ascii_lower(s)),
{
    assert forall|k: int| 0 <= k < ascii_lower(s).len() implies !('A' <= #[trigger] ascii_lower(s)[k]
        && ascii_lower(s)[k] <= 'Z') by {
        let c = s[k];
        if 'A' <= c && c <= 'Z' {
            assert((c as u32) + 32 >= 'a' as u32);
        }
    }
}

/// Whether no address occurs twice.
pub open spec fn distinct(emails: Seq<Seq<char>>) -> bool {
    forall|i: int, j: int| 0 <= i < j < emails.len() ==> #[trigger] emails[i] != #[trigger] emails[j]
}

/// A line only ever adds to a card: the first `UID`, `FN` and `N` a card
/// gets stay its own, the addresses already read stay as they were and in
/// order, at most one is added, and none is added twice.
pub proof fn law_a_line_only_adds(card: CardModel, line: Seq<char>)
    ensures
        card.uid is Some ==> read_line(card, line).uid == card.uid,
        card.fn_name is Some ==> read_line(card, line).fn_name == card.fn_name,
        card.n_name is Some ==> read_line(card, line).n_name == card.n_name,
        read_line(card, line).emails.len() <= card.emails.len() + 1,
        read_line(card, line).emails.len() >= card.emails.len(),
        read_line(card, line).emails.subrange(0, card.emails.len() as int) == card.emails,
        distinct(card.emails) ==> distinct(read_line(card, line).emails),
{
    let next = read_line(card, line);
    if next.emails != card.emails {
        match property_parts(line) {
            None => {},
            Some((name, params, raw)) => {
                let address = email_address(unescaped(trim(raw)));
                assert(next.emails == card.emails.push(address));
                assert(next.emails.subrange(0, card.emails.len() as int) =~= card.emails);
                if distinct(card.emails) {
                    assert forall|i: int, j: int| 0 <= i < j < next.emails.len() implies #[trigger] next.emails[i]
                        != #[trigger] next.emails[j] by {
                        if j == card.emails.len() {
                            assert(card.emails.contains(card.emails[i]));
                        }
                    }
                }
            },
        }
    } else {
        assert(next.emails.subrange(0, card.emails.len() as int) =~= card.emails);
    }
}

proof fn lemma_read_line_wf(card: CardModel, line: Seq<char>)
    requires
        card_wf(card),
    ensures
        card_wf(read_line(card, line)),
{
    match property_parts(line) {
        None => {},
        Some((name, params, raw)) => {
            let value = unescaped(trim(raw));
            let address = email_address(value);
            lemma_ascii_lower_no_upper(trim(if starts_with(trim(value), "mailto:"@) || starts_with(trim(value), "MAILTO:"@) {
                trim(value).skip(7)
            } else {
                trim(value)
            }));
            let next = read_line(card, line);
            if next.emails != card.emails {
                assert(next.emails == card.emails.push(address));
                assert forall|i: int, j: int| 0 <= i < j < next.emails.len() implies #[trigger] next.emails[i]
                    != #[trigger] next.emails[j] by {
                    if j == card.emails.len() {
                        assert(card.emails.contains(card.emails[i]));
                    }
                }
            }
        },
    }
}

proof fn lemma_parse_lines_wf(lines: Seq<Seq<char>>)
    ensures
        forall|k: int| 0 <= k < parse_lines(lines).0.len() ==> contact_wf(#[trigger] parse_lines(lines).0[k]),
        parse_lines(lines).1 matches Some(c) ==> card_wf(c),
    decreases lines.len(),
{
    if lines.len() > 0 {
        lemma_parse_lines_wf(lines.drop_last());
        let st = parse_lines(lines.drop_last());
        if let Some(card) = st.1 {
            lemma_read_line_wf(card, lines.last());
        }
    }
}

/// Cards are read one at a time: the contacts of two runs of lines are the
/// first run's followed by the second's whenever the first leaves no card
/// open — one broken card costs only itself.
pub proof fn law_cards_read_independently(first: Seq<Seq<char>>, second: Seq<Seq<char>>)
    requires
        parse_lines(first).1 is None,
    ensures
        parse_lines(first + second).0 == parse_lines(first).0 + parse_lines(second).0,
        parse_lines(first + second).1 == parse_lines(second).1,
    decreases second.len(),
{
    if second.len() == 0 {
        assert(first + second =~= first);
        assert(parse_lines(first).0 + Seq::<ContactView>::empty() =~= parse_lines(first).0);
    } else {
        law_cards_read_independently(first, second.drop_last());
        assert((first + second).drop_last() =~= first + second.drop_last());
        let p = parse_lines(first).0;
        let st = parse_lines(second.drop_last());
        lemma_step_keeps_prefix(p, st, second.last());
    }
}

/// A step only ever appends to the contacts found so far.
proof fn lemma_step_keeps_prefix(p: Seq<ContactView>, st: (Seq<ContactView>, Option<CardModel>), line: Seq<char>)
    ensures
        parse_step((p + st.0, st.1), line).0 == p + parse_step(st, line).0,
        parse_step((p + st.0, st.1), line).1 == parse_step(st, line).1,
{
    let upper = ascii_upper(line);
    if !starts_with(upper, "BEGIN:VCARD"@) && starts_with(upper, "END:VCARD"@) {
        if let Some(card) = st.1 {
            if let Some(c) = finish(card) {
                assert((p + st.0).push(c) =~= p + st.0.push(c));
            }
        }
    }
}

/// A line outside any card that is neither `BEGIN:VCARD` nor `END:VCARD`
/// changes nothing: garbage between cards is skipped.
pub proof fn law_stray_line_is_skipped(lines: Seq<Seq<char>>, stray: Seq<char>)
    requires
        parse_lines(lines).1 is None,
        !starts_with(ascii_upper(stray), "BEGIN:VCARD"@),
        !starts_with(ascii_upper(stray), "END:VCARD"@),
    ensures
        parse_lines(lines.push(stray)) == parse_lines(lines),
{
    assert(lines.push(stray).drop_last() =~= lines);
}

/// A `BEGIN:VCARD` starts a fresh card: one left open before it is dropped,
/// and the contacts already found stay as they were.
pub proof fn law_begin_starts_over(lines: Seq<Seq<char>>, begin: Seq<char>)
    requires
        starts_with(ascii_upper(begin), "BEGIN:VCARD"@),
    ensures
        parse_lines(lines.push(begin)).0 == parse_lines(lines).0,
        parse_lines(lines.push(begin)).1 == Some(empty_card()),
{
    assert(lines.push(begin).drop_last() =~= lines);
}

/// Whether a body can follow another without joining its last line: it is
/// empty, or it starts with a character that neither ends a line nor
/// continues one.
pub open spec fn starts_cleanly(b: Seq<char>) -> bool {
    b.len() == 0 || !(b[0] == ' ' || b[0] == '\t' || b[0] == '\n' || b[0] == '\r')
}

/// Two bodies read as one: when the first ends its last line and leaves no
/// card open, and the second starts a fresh line, the contacts of the two
/// together are the first's followed by the second's.
pub proof fn law_bodies_concatenate(a: Seq<char>, b: Seq<char>)
    requires
        a.len() == 0 || a.last() == '\n',
        starts_cleanly(b),
        parse_lines(unfolded(a)).1 is None,
    ensures
        parse_cards_spec(a + b) == parse_cards_spec(a) + parse_cards_spec(b),
{
    let sa = split_char(a, '\n');
    crate::text::lemma_split_char_nonempty(a, '\n');
    let s = sa.drop_last();
    lemma_split_concat(a, b);
    assert(sa =~= s.push(Seq::<char>::empty()));
    assert(unfolded(a) == unfold_raws(s)) by {
        assert(sa.drop_last() =~= s);
    }
    let r = split_char(b, '\n');
    crate::text::lemma_split_char_nonempty(b, '\n');
    lemma_first_piece(b);
    lemma_unfold_concat(s, r);
    law_cards_read_independently(unfolded(a), unfolded(b));
}

/// Splitting text after a line break splits the two parts on their own.
/// Garbage between two bodies is skipped, and the bodies are read on their
/// own: when the first ends its last line and leaves no card open, a line
/// between them that is neither `BEGIN:VCARD` nor `END:VCARD` (in any case)
/// and starts cleanly, and a second body that starts a fresh line, give the
/// first's contacts followed by the second's.
pub proof fn law_garbage_between_bodies_is_skipped(a: Seq<char>, g: Seq<char>, b: Seq<char>)
    requires
        a.len() == 0 || a.last() == '\n',
        parse_lines(unfolded(a)).1 is None,
        !g.contains('\n'),
        starts_cleanly(g),
        !starts_with(ascii_upper(g), "BEGIN:VCARD"@),
        !starts_with(ascii_upper(g), "END:VCARD"@),
        starts_cleanly(b),
    ensures
        parse_cards_spec(a + g + seq!['\n'] + b) == parse_cards_spec(a) + parse_cards_spec(b),
{
    let nl = seq!['\n'];
    lemma_split_single(g, '\n');
    assert(g.push('\n') =~= g + nl);
    assert(split_char(g + nl, '\n') =~= seq![g, Seq::<char>::empty()]) by {
        assert((g + nl).drop_last() =~= g);
    }
    // The line `g` gives, if any, is read outside any card and skipped.
    let gl = line_of(g);
    reveal_strlit("BEGIN:VCARD");
    reveal_strlit("END:VCARD");
    assert(!starts_with(ascii_upper(gl), "BEGIN:VCARD"@)) by {
        if starts_with(ascii_upper(gl), "BEGIN:VCARD"@) {
            assert(ascii_upper(g).subrange(0, 11) =~= ascii_upper(gl).subrange(0, 11));
        }
    }
    assert(!starts_with(ascii_upper(gl), "END:VCARD"@)) by {
        if starts_with(ascii_upper(gl), "END:VCARD"@) {
            assert(ascii_upper(g).subrange(0, 9) =~= ascii_upper(gl).subrange(0, 9));
        }
    }
    let ug = unfolded(g + nl);
    assert(unfold_raws(seq![g, Seq::<char>::empty()].drop_last()) == unfold_step(unfold_raws(Seq::<Seq<char>>::empty()), g)) by {
        assert(seq![g, Seq::<char>::empty()].drop_last().drop_last() =~= Seq::<Seq<char>>::empty());
    }
    assert(ug.len() == 0 || ug =~= seq![gl]);
    if ug.len() > 0 {
        assert(ug.drop_last() =~= Seq::<Seq<char>>::empty());
        assert(ug.last() == gl);
        assert(parse_lines(ug) == parse_step(parse_lines(Seq::<Seq<char>>::empty()), gl));
    }
    assert(parse_lines(ug).1 is None && parse_lines(ug).0 =~= Seq::<ContactView>::empty());
    assert(parse_cards_spec(g + nl) =~= Seq::<ContactView>::empty());
    if g.len() == 0 {
        // An empty line is no line: `a` then a bare newline reads as `a`.
        assert(a + g + nl + b =~= (a + nl) + b);
        lemma_split_concat(a, nl);
        crate::text::lemma_split_char_nonempty(a, '\n');
        let sa = split_char(a, '\n');
        let s = sa.drop_last();
        assert(sa =~= s.push(Seq::<char>::empty())) by {
            if a.len() > 0 {
                assert(a.drop_last() + nl =~= a);
            }
        }
        assert(split_char(nl, '\n') =~= seq![Seq::<char>::empty(), Seq::<char>::empty()]) by {
            assert(nl.drop_last() =~= Seq::<char>::empty());
            assert(nl.last() == '\n');
            assert(split_char(nl.drop_last(), '\n') == seq![Seq::<char>::empty()]);
            assert(split_char(nl, '\n') == split_char(nl.drop_last(), '\n').push(Seq::<char>::empty()));
        }
        let sa2 = s + seq![Seq::<char>::empty(), Seq::<char>::empty()];
        assert(split_char(a + nl, '\n') =~= sa2);
        assert(sa2.drop_last() =~= s.push(Seq::<char>::empty()));
        assert(sa2.drop_last().drop_last() =~= s);
        assert(unfolded(a + nl) == unfolded(a)) by {
            assert(unfolded(a) == unfold_raws(sa));
            assert(sa.drop_last() =~= s);
        }
        law_bodies_concatenate(a + nl, b);
    } else {
        assert(a + g + nl + b =~= a + (g + nl + b));
        assert(starts_cleanly(g + nl + b)) by {
            assert((g + nl + b)[0] == g[0]);
        }
        law_bodies_concatenate(a, g + nl + b);
        assert(g + nl + b =~= (g + nl) + b);
        assert((g + nl).last() == '\n');
        law_bodies_concatenate(g + nl, b);
        assert(parse_cards_spec(a) + (Seq::<ContactView>::empty() + parse_cards_spec(b)) =~= parse_cards_spec(a) + parse_cards_spec(b));
    }
}

/// A text with no separator in it is one piece.
proof fn lemma_split_single(g: Seq<char>, sep: char)
    requires
        !g.contains(sep),
    ensures
        split_char(g, sep) == seq![g],
    decreases g.len(),
{
    if g.len() > 0 {
        assert(!g.drop_last().contains(sep)) by {
            if g.drop_last().contains(sep) {
                let k = choose|k: int| 0 <= k < g.drop_last().len() && g.drop_last()[k] == sep;
                assert(g[k] == sep);
            }
        }
        lemma_split_single(g.drop_last(), sep);
        assert(g[g.len() - 1] != sep);
        assert(g.drop_last().push(g.last()) =~= g);
        assert(split_char(g, sep) == seq![g.drop_last()].update(0, g.drop_last().push(g.last())));
        assert(seq![g.drop_last()].update(0, g.drop_last().push(g.last())) =~= seq![g]);
    } else {
        assert(g =~= Seq::<char>::empty());
    }
}

proof fn lemma_split_concat(a: Seq<char>, b: Seq<char>)
    requires
        a.len() == 0 || a.last() == '\n',
    ensures
        split_char(a + b, '\n') == split_char(a, '\n').drop_last() + split_char(b, '\n'),
    decreases b.len(),
{
    crate::text::lemma_split_char_nonempty(a, '\n');
    if b.len() == 0 {
        assert(a + b =~= a);
        if a.len() == 0 {
            assert(split_char(a, '\n').drop_last() + split_char(b, '\n') =~= split_char(a, '\n'));
        } else {
            assert(a.drop_last() + seq!['\n'] =~= a);
            assert(split_char(a, '\n').drop_last() + split_char(b, '\n') =~= split_char(a, '\n'));
        }
    } else {
        lemma_split_concat(a, b.drop_last());
        assert((a + b).drop_last() =~= a + b.drop_last());
        crate::text::lemma_split_char_nonempty(b.drop_last(), '\n');
        let pre = split_char(a, '\n').drop_last();
        let x = split_char(b.drop_last(), '\n');
        if b.last() == '\n' {
            assert((pre + x).push(Seq::<char>::empty()) =~= pre + x.push(Seq::<char>::empty()));
        } else {
            assert((pre + x).update((pre + x).len() - 1, (pre + x).last().push(b.last())) =~= pre + x.update(
                x.len() - 1,
                x.last().push(b.last()),
            ));
        }
    }
}

pub open spec fn line_of(raw: Seq<char>) -> Seq<char> {
    if raw.len() > 0 && raw.last() == '\r' { raw.drop_last() } else { raw }
}

pub open spec fn opens_line(raw: Seq<char>) -> bool {
    line_of(raw).len() == 0 || !(line_of(raw)[0] == ' ' || line_of(raw)[0] == '\t')
}

proof fn lemma_first_piece_start(b: Seq<char>)
    requires
        b.len() > 0,
        b[0] != '\n',
    ensures
        split_char(b, '\n').len() >= 1,
        split_char(b, '\n')[0].len() > 0,
        split_char(b, '\n')[0][0] == b[0],
    decreases b.len(),
{
    crate::text::lemma_split_char_nonempty(b, '\n');
    if b.len() == 1 {
        assert(b.drop_last() =~= Seq::<char>::empty());
        assert(split_char(b.drop_last(), '\n') =~= seq![Seq::<char>::empty()]);
        assert(b.last() == b[0]);
    } else {
        lemma_first_piece_start(b.drop_last());
        crate::text::lemma_split_char_nonempty(b.drop_last(), '\n');
        let x = split_char(b.drop_last(), '\n');
        if b.last() != '\n' && x.len() == 1 {
            assert(split_char(b, '\n')[0] == x[0].push(b.last()));
        }
    }
}

proof fn lemma_first_piece(b: Seq<char>)
    requires
        starts_cleanly(b),
    ensures
        split_char(b, '\n').len() >= 1,
        opens_line(split_char(b, '\n')[0]),
        b.len() > 0 ==> line_of(split_char(b, '\n')[0]).len() > 0,
        b.len() == 0 ==> split_char(b, '\n').len() == 1,
{
    crate::text::lemma_split_char_nonempty(b, '\n');
    if b.len() > 0 {
        lemma_first_piece_start(b);
        let p = split_char(b, '\n')[0];
        if p.len() == 1 {
            assert(p.last() == b[0]);
            assert(line_of(p) == p);
        } else {
            assert(line_of(p)[0] == p[0]);
        }
    }
}

proof fn lemma_unfold_grows(r: Seq<Seq<char>>, n: int)
    requires
        0 <= n <= r.len(),
    ensures
        unfold_raws(r.take(n)).len() <= unfold_raws(r).len(),
    decreases r.len(),
{
    if r.len() > 0 {
        if n == r.len() {
            assert(r.take(n) =~= r);
        } else {
            lemma_unfold_grows(r.drop_last(), n);
            assert(r.drop_last().take(n) =~= r.take(n));
        }
    }
}

proof fn lemma_unfold_concat(s: Seq<Seq<char>>, r: Seq<Seq<char>>)
    requires
        r.len() >= 1,
        opens_line(r[0]),
        r.len() == 1 || line_of(r[0]).len() > 0,
    ensures
        unfold_raws(s + r) == unfold_raws(s) + unfold_raws(r),
    decreases r.len(),
{
    if r.len() == 1 {
        assert((s + r).drop_last() =~= s);
        assert(r.drop_last() =~= Seq::<Seq<char>>::empty());
        assert(unfold_raws(r.drop_last()) =~= Seq::<Seq<char>>::empty());
        assert((s + r).last() == r[0]);
        assert(r.last() == r[0]);
        let raw = r[0];
        let line = if raw.len() > 0 && raw.last() == '\r' { raw.drop_last() } else { raw };
        if line.len() > 0 {
            assert(unfold_raws(s).push(line) =~= unfold_raws(s) + seq![line]);
        } else {
            assert(unfold_raws(s) + Seq::<Seq<char>>::empty() =~= unfold_raws(s));
        }
    } else {
        lemma_unfold_concat(s, r.drop_last());
        assert((s + r).drop_last() =~= s + r.drop_last());
        let u = unfold_raws(s);
        let x = unfold_raws(r.drop_last());
        let raw = r.last();
        let line = if raw.len() > 0 && raw.last() == '\r' { raw.drop_last() } else { raw };
        if line.len() > 0 && (line[0] == ' ' || line[0] == '\t') {
            let first = r.take(1);
            assert(r.drop_last().take(1) =~= first);
            lemma_unfold_grows(r.drop_last(), 1);
            let raw0 = r[0];
            let line0 = if raw0.len() > 0 && raw0.last() == '\r' { raw0.drop_last() } else { raw0 };
            assert(first.drop_last() =~= Seq::<Seq<char>>::empty());
            assert(line0 == line_of(raw0));
            assert(first.last() == raw0);
            assert(unfold_raws(first.drop_last()) =~= Seq::<Seq<char>>::empty());
            assert(unfold_raws(first) =~= seq![line0]);
            assert(x.len() > 0);
            assert((u + x).update((u + x).len() - 1, (u + x).last() + line.drop_first()) =~= u + x.update(
                x.len() - 1,
                x.last() + line.drop_first(),
            ));
        } else if line.len() > 0 {
            assert((u + x).push(line) =~= u + x.push(line));
        }
    }
}

// ----------------------------------------------------------- executable

struct Card {
    uid: Option<Vec<char>>,
    fn_name: Option<Vec<char>>,
    n_name: Option<Vec<char>>,
    emails: Vec<Vec<char>>,
}

pub open spec fn opt_chars(o: Option<Vec<char>>) -> Option<Seq<char>> {
    match o {
        Some(v) => Some(v@),
        None => None,
    }
}

impl Card {
    closed spec fn model(&self) -> CardModel {
        CardModel {
            uid: opt_chars(self.uid),
            fn_name: opt_chars(self.fn_name),
            n_name: opt_chars(self.n_name),
            emails: views(self.emails@),
        }
    }

    fn new() -> (c: Card)
        ensures
            c.model() == empty_card(),
    {
        let c = Card { uid: None, fn_name: None, n_name: None, emails: Vec::new() };
        assert(views(c.emails@) =~= Seq::<Seq<char>>::empty());
        c
    }

    fn read(&mut self, line: &Vec<char>)
        ensures
            final(self).model() == read_line(old(self).model(), line@),
            old(self).model().uid is Some ==> final(self).model().uid == old(self).model().uid,
            old(self).model().fn_name is Some ==> final(self).model().fn_name == old(self).model().fn_name,
            old(self).model().n_name is Some ==> final(self).model().n_name == old(self).model().n_name,
            old(self).model().emails.len() <= final(self).model().emails.len() <= old(self).model().emails.len() + 1,
            final(self).model().emails.subrange(0, old(self).model().emails.len() as int) == old(self).model().emails,
            distinct(old(self).model().emails) ==> distinct(final(self).model().emails),
    {
        proof { law_a_line_only_adds(self.model(), line@); }
        let Some((name, params, raw)) = split_property(line) else { return };
        let mut pieces = split_exec(&name, '.');
        proof { lemma_split_char_nonempty(name@, '.'); }
        let ghost pieces_view = views(pieces@);
        let last = pieces.pop().unwrap();
        assert(last@ == pieces_view.last());
        let prop = to_ascii_upper(&last);
        let trimmed = trim_exec(&raw);
        let value = unescape(&trimmed);
        if value.len() == 0 {
            return;
        }
        let uid_name = chars_of("UID");
        let fn_tag = chars_of("FN");
        let n_tag = chars_of("N");
        let email_tag = chars_of("EMAIL");
        if chars_eq(&prop, &uid_name) {
            if self.uid.is_none() {
                self.uid = Some(value);
            }
        } else if chars_eq(&prop, &fn_tag) {
            if self.fn_name.is_none() {
                self.fn_name = Some(value);
            }
        } else if chars_eq(&prop, &n_tag) {
            let joined = n_joined_exec(&value);
            if joined.len() > 0 && self.n_name.is_none() {
                self.n_name = Some(joined);
            }
        } else if chars_eq(&prop, &email_tag) {
            let address = email_address_exec(&value);
            let encoded = any_quoted_printable(&params);
            if contains_char(&address, '@') && !encoded && !holds_chars(&self.emails, &address) {
                proof { lemma_views_push(self.emails@, address); }
                self.emails.push(address);
            }
        }
    }

    fn finish(self) -> (r: Option<Contact>)
        ensures
            match r {
                Some(c) => finish(self.model()) == Some(c@),
                None => finish(self.model()) is None,
            },
    {
        if self.emails.len() == 0 {
            return None;
        }
        let uid = match &self.uid {
            Some(u) => Some(string_of(u)),
            None => None,
        };
        let name = match &self.fn_name {
            Some(n) => Some(string_of(n)),
            None => match &self.n_name {
                Some(n) => Some(string_of(n)),
                None => None,
            },
        };
        let mut emails: Vec<String> = Vec::new();
        let mut i: usize = 0;
        while i < self.emails.len()
            invariant
                i <= self.emails.len(),
                strings(emails@) == views(self.emails@).take(i as int),
            decreases self.emails.len() - i,
        {
            let e = string_of(&self.emails[i]);
            let ghost before = emails@;
            emails.push(e);
            assert(emails@ == before.push(e));
            assert(strings(emails@) =~= strings(before).push(e@));
            assert(e@ == views(self.emails@)[i as int]);
            assert(strings(emails@) =~= views(self.emails@).take(i + 1));
            i += 1;
        }
        assert(views(self.emails@).take(self.emails.len() as int) =~= views(self.emails@));
        let c = Contact { uid, name, emails };
        assert(c@.emails == self.model().emails);
        Some(c)
    }
}

fn split_property(line: &Vec<char>) -> (r: Option<(Vec<char>, Vec<Vec<char>>, Vec<char>)>)
    ensures
        match r {
            Some((n, p, v)) => property_parts(line@) == Some((n@, views(p@), v@)),
            None => property_parts(line@) is None,
        },
{
    let mut quoted = false;
    let mut i: usize = 0;
    let mut colon: Option<usize> = None;
    while i < line.len()
        invariant_except_break
            i <= line.len(),
            colon is None,
            colon_from(line@, 0, false) == colon_from(line@, i as int, quoted),
        ensures
            match colon {
                Some(c) => c < line.len() && colon_from(line@, 0, false) == Some(c as int),
                None => colon_from(line@, 0, false) is None,
            },
        decreases line.len() - i,
    {
        let ch = line[i];
        if ch == '"' {
            quoted = !quoted;
        } else if ch == ':' && !quoted {
            colon = Some(i);
            break;
        }
        i += 1;
    }
    let c = match colon {
        Some(c) => c,
        None => return None,
    };
    let head = slice_chars(line, 0, c);
    assert(head@ == line@.take(c as int));
    let mut parts = split_exec(&head, ';');
    proof { lemma_split_char_nonempty(head@, ';'); }
    let ghost parts_view = views(parts@);
    let first = parts.remove(0);
    assert(first@ == parts_view[0]);
    assert(views(parts@) =~= parts_view.drop_first());
    let name = trim_exec(&first);
    if name.len() == 0 {
        return None;
    }
    let mut params: Vec<Vec<char>> = Vec::new();
    let mut k: usize = 0;
    while k < parts.len()
        invariant
            k <= parts.len(),
            views(parts@) == parts_view.drop_first(),
            views(params@) == parts_view.drop_first().map_values(|p: Seq<char>| trim(p)).take(k as int),
        decreases parts.len() - k,
    {
        let t = trim_exec(&parts[k]);
        proof { lemma_views_push(params@, t); }
        params.push(t);
        assert(views(params@) =~= parts_view.drop_first().map_values(|p: Seq<char>| trim(p)).take(k + 1));
        k += 1;
    }
    assert(parts_view.drop_first().map_values(|p: Seq<char>| trim(p)).take(k as int)
        =~= parts_view.drop_first().map_values(|p: Seq<char>| trim(p)));
    let value = slice_chars(line, c + 1, line.len());
    assert(value@ =~= line@.skip(c + 1));
    Some((name, params, value))
}

fn unescape(s: &Vec<char>) -> (r: Vec<char>)
    ensures
        r@ == unescaped(s@),
{
    let mut out: Vec<char> = Vec::new();
    let mut i: usize = 0;
    assert(s@.subrange(0, s.len() as int) =~= s@);
    while i < s.len()
        invariant
            i <= s.len(),
            out@ + unescape_raw(s@.subrange(i as int, s.len() as int)) == unescape_raw(s@),
        decreases s.len() - i,
    {
        let ghost rest = s@.subrange(i as int, s.len() as int);
        let ghost old_out = out@;
        if s[i] != '\\' {
            assert(rest.drop_first() =~= s@.subrange(i + 1, s.len() as int));
            out.push(s[i]);
            assert(out@ + unescape_raw(s@.subrange(i + 1, s.len() as int)) =~= old_out + unescape_raw(rest));
            i += 1;
        } else if i + 1 == s.len() {
            assert(unescape_raw(rest) =~= Seq::<char>::empty());
            assert(s@.subrange(i + 1, s.len() as int) =~= Seq::<char>::empty());
            i += 1;
        } else {
            let n = s[i + 1];
            let c = if n == 'n' || n == 'N' { '\n' } else { n };
            assert(rest.subrange(2, rest.len() as int) =~= s@.subrange(i + 2, s.len() as int));
            out.push(c);
            assert(out@ + unescape_raw(s@.subrange(i + 2, s.len() as int)) =~= old_out + unescape_raw(rest));
            i += 2;
        }
    }
    assert(s@.subrange(i as int, s.len() as int) =~= Seq::<char>::empty());
    assert(out@ + Seq::<char>::empty() =~= out@);
    trim_exec(&out)
}

fn n_joined_exec(value: &Vec<char>) -> (r: Vec<char>)
    ensures
        r@ == n_joined(value@),
{
    let parts = split_exec(value, ';');
    proof { lemma_split_char_nonempty(value@, ';'); }
    let family = trim_exec(&parts[0]);
    let given = if parts.len() > 1 { trim_exec(&parts[1]) } else { Vec::new() };
    if given.len() > 0 && family.len() > 0 {
        let mut joined = given;
        joined.push(' ');
        push_all(&mut joined, &family);
        joined
    } else if given.len() > 0 {
        given
    } else {
        family
    }
}

fn email_address_exec(value: &Vec<char>) -> (r: Vec<char>)
    ensures
        r@ == email_address(value@),
{
    let a = trim_exec(value);
    let lower_prefix = chars_of("mailto:");
    let upper_prefix = chars_of("MAILTO:");
    proof {
        reveal_strlit("mailto:");
        reveal_strlit("MAILTO:");
    }
    let stripped = if starts_with_exec(&a, &lower_prefix) || starts_with_exec(&a, &upper_prefix) {
        let s = slice_chars(&a, 7, a.len());
        assert(s@ =~= a@.skip(7));
        s
    } else {
        a
    };
    let t = trim_exec(&stripped);
    to_ascii_lower(&t)
}

fn any_quoted_printable(params: &Vec<Vec<char>>) -> (r: bool)
    ensures
        r == quoted_printable(views(params@)),
{
    let tag = chars_of("ENCODING=QUOTED-PRINTABLE");
    let mut j: usize = 0;
    while j < params.len()
        invariant
            j <= params.len(),
            tag@ == "ENCODING=QUOTED-PRINTABLE"@,
            forall|k: int| 0 <= k < j ==> !eq_ignore_ascii_case(views(params@)[k], "ENCODING=QUOTED-PRINTABLE"@),
        decreases params.len() - j,
    {
        if eq_ignore_case(&params[j], &tag) {
            assert(eq_ignore_ascii_case(views(params@)[j as int], "ENCODING=QUOTED-PRINTABLE"@));
            return true;
        }
        j += 1;
    }
    false
}

fn unfold(src: &Vec<char>) -> (r: Vec<Vec<char>>)
    ensures
        views(r@) == unfolded(src@),
{
    let raws = split_exec(src, '\n');
    let mut out: Vec<Vec<char>> = Vec::new();
    let mut i: usize = 0;
    while i < raws.len()
        invariant
            i <= raws.len(),
            views(raws@) == split_char(src@, '\n'),
            views(out@) == unfold_raws(views(raws@).take(i as int)),
        decreases raws.len() - i,
    {
        let ghost before = views(out@);
        assert(views(raws@).take(i + 1).drop_last() =~= views(raws@).take(i as int));
        let raw = &raws[i];
        let line = if raw.len() > 0 && raw[raw.len() - 1] == '\r' {
            slice_chars(raw, 0, raw.len() - 1)
        } else {
            slice_chars(raw, 0, raw.len())
        };
        assert(raw@.subrange(0, raw.len() as int) =~= raw@);
        assert(raw@.len() > 0 ==> raw@.subrange(0, raw.len() - 1) =~= raw@.drop_last());
        if line.len() > 0 && (line[0] == ' ' || line[0] == '\t') && out.len() > 0 {
            let mut last = out.pop().unwrap();
            assert(views(out@) =~= before.drop_last());
            let rest = slice_chars(&line, 1, line.len());
            assert(rest@ =~= line@.drop_first());
            push_all(&mut last, &rest);
            proof { lemma_views_push(out@, last); }
            out.push(last);
            assert(views(out@) =~= before.update(before.len() - 1, before.last() + line@.drop_first()));
        } else if line.len() > 0 {
            proof { lemma_views_push(out@, line); }
            out.push(line);
        }
        i += 1;
    }
    assert(views(raws@).take(raws.len() as int) =~= views(raws@));
    out
}

/// Every card in a body, which may hold one (a `GET`) or hundreds (a
/// `REPORT`). Garbage between cards is skipped rather than fatal, and a card
/// left open is dropped when the next `BEGIN:VCARD` starts over.
///
/// Every contact it returns carries at least one address; every address
/// holds an `@`, has no upper-case ASCII letter, and appears once on its
/// card; a name or uid, when present, is not empty.
pub fn parse_cards(src: &str) -> (out: Vec<Contact>)
    ensures
        contact_views(out@) == parse_cards_spec(src@),
        forall|k: int| 0 <= k < out@.len() ==> contact_wf(#[trigger] out@[k]@),
{
    let chars = chars_of(src);
    let lines = unfold(&chars);
    let begin = chars_of("BEGIN:VCARD");
    let end = chars_of("END:VCARD");
    let mut out: Vec<Contact> = Vec::new();
    let mut current: Option<Card> = None;
    let mut i: usize = 0;
    while i < lines.len()
        invariant
            i <= lines.len(),
            begin@ == "BEGIN:VCARD"@,
            end@ == "END:VCARD"@,
            views(lines@) == unfolded(src@),
            (contact_views(out@), match current {
                Some(c) => Some(c.model()),
                None => None,
            }) == parse_lines(views(lines@).take(i as int)),
        decreases lines.len() - i,
    {
        let ghost lines_view = views(lines@);
        assert(lines_view.take(i + 1).drop_last() =~= lines_view.take(i as int));
        let line = &lines[i];
        let upper = to_ascii_upper(line);
        if starts_with_exec(&upper, &begin) {
            current = Some(Card::new());
        } else if starts_with_exec(&upper, &end) {
            let cur = current;
            current = None;
            if let Some(card) = cur {
                if let Some(contact) = card.finish() {
                    let ghost before = contact_views(out@);
                    out.push(contact);
                    assert(contact_views(out@) =~= before.push(contact@));
                }
            }
        } else {
            let cur = current;
            current = None;
            if let Some(mut card) = cur {
                card.read(line);
                current = Some(card);
            }
        }
        i += 1;
    }
    assert(views(lines@).take(lines.len() as int) =~= views(lines@));
    proof {
        lemma_parse_lines_wf(unfolded(src@));
        let st = parse_lines(unfolded(src@));
        assert(contact_views(out@) == st.0);
        assert forall|k: int| 0 <= k < out@.len() implies contact_wf(#[trigger] out@[k]@) by {
            assert(contact_views(out@)[k] == out@[k]@);
            assert(contact_wf(st.0[k]));
        }
    }
    out
}

} // verus!
