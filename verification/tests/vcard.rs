use omacal::vcard::{parse_cards, Contact};

/// A 3.0 card as Nextcloud and Radicale write one.
#[test]
fn a_plain_card_gives_a_name_and_an_address() {
    let src = "BEGIN:VCARD\r\nVERSION:3.0\r\nUID:abc-123\r\nFN:Ana Petrova\r\n\
               N:Petrova;Ana;;;\r\nEMAIL;TYPE=INTERNET;TYPE=WORK:Ana.Petrova@x.com\r\n\
               TEL;TYPE=CELL:+359888123456\r\nEND:VCARD\r\n";
    assert_eq!(
        parse_cards(src),
        vec![Contact {
            uid: Some("abc-123".into()),
            name: Some("Ana Petrova".into()),
            emails: vec!["ana.petrova@x.com".into()],
        }]
    );
}

/// Apple's own export: `item1.EMAIL` groups, a folded line, and `mailto:`.
#[test]
fn apple_groups_folding_and_mailto_all_read_as_one_person() {
    let src = "BEGIN:VCARD\r\nVERSION:4.0\r\nUID:urn:uuid:9\r\n\
               FN:Ivan Ivanov Pet\r\n rov\r\n\
               item1.EMAIL;type=INTERNET;type=HOME;type=pref:mailto:IVAN@x.com\r\n\
               item1.X-ABLabel:_$!<Home>!$_\r\nEND:VCARD\r\n";
    let cards = parse_cards(src);
    assert_eq!(cards.len(), 1);
    assert_eq!(cards[0].name.as_deref(), Some("Ivan Ivanov Petrov"));
    assert_eq!(cards[0].emails, vec!["ivan@x.com".to_string()]);
}

/// Several addresses on one card, and the same address twice.
#[test]
fn every_address_on_a_card_is_kept_once() {
    let src = "BEGIN:VCARD\nVERSION:3.0\nFN:Petya\nEMAIL:petya@work.com\n\
               EMAIL;TYPE=HOME:petya@home.com\nEMAIL:PETYA@WORK.COM\nEND:VCARD\n";
    assert_eq!(
        parse_cards(src)[0].emails,
        vec!["petya@work.com".to_string(), "petya@home.com".to_string()]
    );
}

/// A 2.1 card with no `FN` still has a name, from `N`.
#[test]
fn a_card_without_fn_falls_back_to_n() {
    let src = "BEGIN:VCARD\nVERSION:2.1\nN:Dimitrov;Georgi;;;\nEMAIL:g@d.com\nEND:VCARD\n";
    assert_eq!(parse_cards(src)[0].name.as_deref(), Some("Georgi Dimitrov"));
}

/// Escapes: a comma in a name arrives as a comma, not as `\,`.
#[test]
fn escaped_punctuation_comes_back_as_itself() {
    let src = "BEGIN:VCARD\nVERSION:3.0\nFN:Petrov\\, Ivan\nEMAIL:i@p.com\nEND:VCARD\n";
    assert_eq!(parse_cards(src)[0].name.as_deref(), Some("Petrov, Ivan"));
}

/// A card nobody can be invited from is not a contact.
#[test]
fn cards_without_an_address_are_left_out() {
    let src = "BEGIN:VCARD\nVERSION:3.0\nFN:Office\nTEL:+1\nEND:VCARD\n\
               BEGIN:VCARD\nVERSION:3.0\nFN:Real\nEMAIL:real@x.com\nEND:VCARD\n";
    let cards = parse_cards(src);
    assert_eq!(cards.len(), 1);
    assert_eq!(cards[0].name.as_deref(), Some("Real"));
}

/// A body of many cards, and one of them broken: the rest still arrive.
#[test]
fn a_broken_card_costs_only_itself() {
    let src = "BEGIN:VCARD\nFN:One\nEMAIL:one@x.com\nEND:VCARD\n\
               NOT A CARD AT ALL\n\
               BEGIN:VCARD\nFN:Two\nEMAIL:two@x.com\n\
               BEGIN:VCARD\nFN:Three\nEMAIL:three@x.com\nEND:VCARD\n";
    let names: Vec<_> = parse_cards(src).iter().map(|c| c.name.clone()).collect();
    assert_eq!(names, vec![Some("One".into()), Some("Three".into())]);
}

/// Quoted-printable is 2.1's, and an encoded address is not one this app
/// can send to.
#[test]
fn a_quoted_printable_address_is_skipped_rather_than_stored_as_mojibake() {
    let src = "BEGIN:VCARD\nVERSION:2.1\nFN:Encoded\n\
               EMAIL;ENCODING=QUOTED-PRINTABLE:=41=42@x.com\nEND:VCARD\n";
    assert!(parse_cards(src).is_empty());
}

#[test]
fn nothing_at_all_is_no_contacts_rather_than_a_panic() {
    assert!(parse_cards("").is_empty());
    assert!(parse_cards("garbage").is_empty());
    assert!(parse_cards("BEGIN:VCARD\nEND:VCARD\n").is_empty());
}

// ---------------------------------------------------------------- more

#[test]
fn two_bodies_read_as_their_contacts_one_after_the_other() {
    let a = "BEGIN:VCARD\nFN:One\nEMAIL:one@x.com\nEND:VCARD\n";
    let b = "BEGIN:VCARD\nFN:Two\nEMAIL:two@x.com\nEND:VCARD\n";
    let together = format!("{a}{b}");
    let mut expected = parse_cards(a);
    expected.extend(parse_cards(b));
    assert_eq!(parse_cards(&together), expected);
    assert_eq!(expected.len(), 2);
}

#[test]
fn a_stray_line_between_cards_changes_nothing() {
    let clean = "BEGIN:VCARD\nFN:One\nEMAIL:one@x.com\nEND:VCARD\n";
    let stray = "BEGIN:VCARD\nFN:One\nEMAIL:one@x.com\nEND:VCARD\nX-STRAY:whatever\n";
    assert_eq!(parse_cards(clean), parse_cards(stray));
}

#[test]
fn a_new_begin_drops_the_open_card() {
    let src = "BEGIN:VCARD\nFN:Half\nEMAIL:half@x.com\nbegin:vcard\nFN:Whole\nEMAIL:whole@x.com\nend:vcard\n";
    let cards = parse_cards(src);
    assert_eq!(cards.len(), 1);
    assert_eq!(cards[0].name.as_deref(), Some("Whole"));
}

#[test]
fn the_first_uid_and_the_first_fn_win() {
    let src = "BEGIN:VCARD\nUID:first\nUID:second\nFN:Ana\nFN:Other\nEMAIL:a@x.com\nEND:VCARD\n";
    let cards = parse_cards(src);
    assert_eq!(cards[0].uid.as_deref(), Some("first"));
    assert_eq!(cards[0].name.as_deref(), Some("Ana"));
}

#[test]
fn fn_beats_n_whichever_comes_first() {
    let src = "BEGIN:VCARD\nN:Dimitrov;Georgi;;;\nFN:G. D.\nEMAIL:g@d.com\nEND:VCARD\n";
    assert_eq!(parse_cards(src)[0].name.as_deref(), Some("G. D."));
}

#[test]
fn an_n_with_only_a_family_name_is_that_name() {
    let src = "BEGIN:VCARD\nN:Dimitrov;;;;\nEMAIL:g@d.com\nEND:VCARD\n";
    assert_eq!(parse_cards(src)[0].name.as_deref(), Some("Dimitrov"));
    let none = "BEGIN:VCARD\nN:;;;;\nEMAIL:g@d.com\nEND:VCARD\n";
    assert_eq!(parse_cards(none)[0].name, None);
}

#[test]
fn an_address_without_an_at_sign_is_not_an_address() {
    let src = "BEGIN:VCARD\nFN:Nobody\nEMAIL:not-an-address\nEND:VCARD\n";
    assert!(parse_cards(src).is_empty());
}

#[test]
fn a_colon_in_quotes_belongs_to_the_parameter() {
    let src = "BEGIN:VCARD\nFN:Q\nEMAIL;X-NOTE=\"a:b\":q@x.com\nEND:VCARD\n";
    assert_eq!(parse_cards(src)[0].emails, vec!["q@x.com".to_string()]);
}

#[test]
fn a_newline_escape_is_a_newline_and_a_lone_backslash_goes() {
    let src = "BEGIN:VCARD\nFN:Line\\nBreak\\\nEMAIL:l@x.com\nEND:VCARD\n";
    assert_eq!(parse_cards(src)[0].name.as_deref(), Some("Line\nBreak"));
}

#[test]
fn a_tab_continues_a_line_too() {
    let src = "BEGIN:VCARD\nFN:Ta\n\tb\nEMAIL:t@x.com\nEND:VCARD\n";
    assert_eq!(parse_cards(src)[0].name.as_deref(), Some("Tab"));
}

#[test]
fn only_the_two_spellings_of_mailto_are_dropped() {
    let src = "BEGIN:VCARD\nFN:M\nEMAIL:Mailto:m@x.com\nEND:VCARD\n";
    assert_eq!(parse_cards(src)[0].emails, vec!["mailto:m@x.com".to_string()]);
}

#[test]
fn a_garbage_line_between_two_cards_costs_neither() {
    let one = "BEGIN:VCARD\nFN:One\nEMAIL:one@x.com\nEND:VCARD\n";
    let two = "BEGIN:VCARD\nFN:Two\nEMAIL:two@x.com\nEND:VCARD\n";
    let both = parse_cards(&format!("{one}X-NOT-A-CARD:1\n{two}"));
    let mut apart = parse_cards(one);
    apart.extend(parse_cards(two));
    assert_eq!(both, apart);
    assert_eq!(both.len(), 2);
}
