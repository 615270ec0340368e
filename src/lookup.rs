//! The single-threaded scan: one ticket page names a user, and that user's
//! page lists all their tickets. The parts of the two pages that the scan
//! reads arrive here as text; this module finds the user name, reads each
//! ticket, and either finds the flag or returns the IDs of the tickets that
//! it ruled out.

use crate::pattern::{
    ascii_digits, ascii_ticket_id, digits_value, flag_group, is_user_header, is_username_header,
    regex_flag, ticket_id_digits, username_field, username_in, Patterns,
};
use crate::skipseq::{SkipSeq, SkipState};
use vstd::prelude::*;

verus! {

/// A number that did not parse.
#[verifier::external_type_specification]
#[verifier::external_body]
pub struct ExParseIntError(std::num::ParseIntError);

/// The outcome of scanning one user's tickets.
#[derive(Debug)]
pub enum Scan {
    /// A ticket holds this flag.
    Flag(String),
    /// No ticket holds a flag; these are the IDs of the tickets looked at.
    NotFound(Vec<usize>),
}

/// A failure to scan one user's tickets.
#[derive(Debug)]
pub enum ScanError {
    /// The request failed.
    Io(reqwest::Error),
    /// A part of a page that the scan reads is missing.
    ElementNotFound,
    /// A part of a page is not in the expected format.
    UnexpectedFormat,
    /// A ticket number does not fit.
    TicketId(std::num::ParseIntError),
}

/// The parts of one ticket on a user's page, each as its inner HTML, or
/// `None` where the page lacks it.
#[derive(Debug)]
pub struct TicketCard {
    pub id_html: Option<String>,
    pub header: Option<String>,
    pub description: Option<String>,
}

/// A ticket read from a user's page.
#[derive(Debug)]
pub struct Ticket {
    pub id: usize,
    pub header: String,
    pub description: String,
}

/// Relies on str::parse::<usize>: a non-empty run of ASCII digits parses to
/// its value when that fits, and fails otherwise.
#[verifier::external_body]
fn parse_usize(s: &str) -> (r: Result<usize, std::num::ParseIntError>)
    ensures
        ascii_digits(s@) ==> (r is Ok <==> digits_value(s@) <= usize::MAX),
        ascii_digits(s@) ==> (r matches Ok(n) ==> n == digits_value(s@)),
{
    s.parse::<usize>()
}

/// The index of the first `User:` line among `texts`.
pub open spec fn first_header(texts: Seq<String>) -> Option<int> {
    if exists|i: int| 0 <= i < texts.len() && is_user_header(#[trigger] texts[i]@) {
        Some(
            choose|i: int|
                0 <= i < texts.len() && is_user_header(#[trigger] texts[i]@) && forall|j: int|
                    0 <= j < i ==> !is_user_header(#[trigger] texts[j]@),
        )
    } else {
        None
    }
}

/// The user name that the text pieces of a ticket's meta block give: the
/// piece after the first `User:` piece, without its leading space.
pub open spec fn username_of(texts: Seq<String>) -> Option<Seq<char>> {
    match first_header(texts) {
        Some(i) => if i + 1 < texts.len() {
            username_field(texts[i + 1]@)
        } else {
            None
        },
        None => None,
    }
}

/// The user who owns a ticket, from the text pieces of the ticket's meta
/// block (`None`: the page has no meta block).
pub fn get_username(patterns: &Patterns, meta: Option<Vec<String>>) -> (r: Result<String, ScanError>)
    ensures
        match meta {
            None => r matches Err(ScanError::ElementNotFound),
            Some(texts) => match username_of(texts@) {
                Some(u) => r matches Ok(name) && name@ == u,
                None => r matches Err(ScanError::UnexpectedFormat),
            },
        },
{
    let texts = match meta {
        Some(t) => t,
        None => {
            return Err(ScanError::ElementNotFound);
        },
    };
    let mut i: usize = 0;
    while i < texts.len()
        invariant
            meta == Some(texts),
            i <= texts@.len(),
            forall|j: int| 0 <= j < i ==> !is_user_header(#[trigger] texts@[j]@),
        decreases texts@.len() - i,
    {
        if is_username_header(patterns, texts[i].as_str()) {
            proof {
                let h = first_header(texts@);
                assert(0 <= i < texts@.len() && is_user_header(texts@[i as int]@));
                let c = h->Some_0;
                if c < i {
                    assert(!is_user_header(texts@[c]@));
                } else if c > i {
                    assert(!is_user_header(texts@[i as int]@));
                }
            }
            if i + 1 < texts.len() {
                return match username_in(patterns, texts[i + 1].as_str()) {
                    Some(u) => Ok(u),
                    None => Err(ScanError::UnexpectedFormat),
                };
            } else {
                return Err(ScanError::UnexpectedFormat);
            }
        }
        i = i + 1;
    }
    Err(ScanError::UnexpectedFormat)
}

/// The ID that a ticket card's number line gives, where it gives one.
pub open spec fn card_id(c: TicketCard) -> Option<nat> {
    match c.id_html {
        Some(s) => match ascii_ticket_id(s@) {
            Some(g) => if digits_value(g) <= usize::MAX {
                Some(digits_value(g))
            } else {
                None
            },
            None => None,
        },
        None => None,
    }
}

/// `e` is the error that a defect of `c` calls for: a missing number
/// element or a missing header or description is `ElementNotFound`, a
/// number line that is not `Ticket #` and ASCII digits is
/// `UnexpectedFormat`, and a number too large is `TicketId`.
pub open spec fn card_error_fits(c: TicketCard, e: ScanError) -> bool {
    &&& c.id_html is None ==> e is ElementNotFound
    &&& c.id_html is Some && ascii_ticket_id(c.id_html->Some_0@) is None ==> e is UnexpectedFormat
    &&& c.id_html is Some && ascii_ticket_id(c.id_html->Some_0@) is Some && digits_value(
        ascii_ticket_id(c.id_html->Some_0@)->Some_0,
    ) > usize::MAX ==> e is TicketId
    &&& card_id(c) is Some && (c.header is None || c.description is None) ==> e is ElementNotFound
}

/// What a ticket card reads as: its ID, header and description.
pub open spec fn card_ticket(c: TicketCard) -> Option<(nat, Seq<char>, Seq<char>)> {
    match (c.id_html, c.header, c.description) {
        (Some(s), Some(h), Some(d)) => match ascii_ticket_id(s@) {
            Some(g) => if digits_value(g) <= usize::MAX {
                Some((digits_value(g), h@, d@))
            } else {
                None
            },
            None => None,
        },
        _ => None,
    }
}

/// Reads one ticket card. Its number line must be `Ticket #` and digits,
/// with white space alone around them; the header and the description must
/// be present.
pub fn parse_ticket(patterns: &Patterns, card: &TicketCard) -> (r: Result<Ticket, ScanError>)
    ensures
        r is Ok <==> card_ticket(*card) is Some,
        r matches Ok(t) ==> card_ticket(*card) == Some(
            (t.id as nat, t.header@, t.description@),
        ),
        r matches Err(e) ==> card_error_fits(*card, e),
{
    let id_html = match &card.id_html {
        Some(s) => s,
        None => {
            return Err(ScanError::ElementNotFound);
        },
    };
    let digits = match ticket_id_digits(patterns, id_html.as_str()) {
        Some(g) => g,
        None => {
            return Err(ScanError::UnexpectedFormat);
        },
    };
    let id = match parse_usize(digits.as_str()) {
        Ok(n) => n,
        Err(e) => {
            return Err(ScanError::TicketId(e));
        },
    };
    let header = match &card.header {
        Some(h) => h.clone(),
        None => {
            return Err(ScanError::ElementNotFound);
        },
    };
    let description = match &card.description {
        Some(d) => d.clone(),
        None => {
            return Err(ScanError::ElementNotFound);
        },
    };
    Ok(Ticket { id, header, description })
}

/// The flag of a ticket: the one in its header, else the one in its
/// description.
pub open spec fn text_flag(header: Seq<char>, description: Seq<char>) -> Option<Seq<char>> {
    match flag_group(header) {
        Some(f) => Some(f),
        None => flag_group(description),
    }
}

/// What scanning a sequence of ticket cards comes to.
pub enum CardsOutcome {
    Flag(Seq<char>),
    NotFound(Seq<usize>),
    /// This card, the first that does not read.
    Invalid(TicketCard),
}

/// The outcome of reading `cards` in order: the first card that does not
/// read makes it invalid, the first ticket with a flag gives that flag, and
/// otherwise it is the IDs of all the tickets.
pub open spec fn cards_outcome(cards: Seq<TicketCard>) -> CardsOutcome
    decreases cards.len(),
{
    if cards.len() == 0 {
        CardsOutcome::NotFound(Seq::empty())
    } else {
        match card_ticket(cards[0]) {
            None => CardsOutcome::Invalid(cards[0]),
            Some((id, h, d)) => match text_flag(h, d) {
                Some(f) => CardsOutcome::Flag(f),
                None => match cards_outcome(cards.drop_first()) {
                    CardsOutcome::NotFound(ids) => CardsOutcome::NotFound(seq![id as usize] + ids),
                    other => other,
                },
            },
        }
    }
}

/// `o` with `ids` in front of the IDs that it rules out.
pub open spec fn after_ids(ids: Seq<usize>, o: CardsOutcome) -> CardsOutcome {
    match o {
        CardsOutcome::NotFound(rest) => CardsOutcome::NotFound(ids + rest),
        other => other,
    }
}

/// Scans the tickets of a user's page in order: the first ticket whose
/// header or description holds a flag gives the flag; with none, the IDs of
/// all of them are ruled out. A card that does not read fails the scan with
/// its error.
pub fn process_tickets(patterns: &Patterns, cards: &Vec<TicketCard>) -> (r: Result<Scan, ScanError>)
    ensures
        match cards_outcome(cards@) {
            CardsOutcome::Flag(f) => r matches Ok(Scan::Flag(x)) && x@ == f,
            CardsOutcome::NotFound(ids) => r matches Ok(Scan::NotFound(v)) && v@ == ids,
            CardsOutcome::Invalid(c) => r matches Err(e) && card_error_fits(c, e),
        },
{
    let mut ids: Vec<usize> = Vec::new();
    let mut i: usize = 0;
    proof {
        assert(cards@.skip(0) =~= cards@);
        if cards_outcome(cards@) is NotFound {
            assert(Seq::<usize>::empty() + cards_outcome(cards@)->NotFound_0 =~= cards_outcome(
                cards@,
            )->NotFound_0);
        }
    }
    while i < cards.len()
        invariant
            i <= cards@.len(),
            cards_outcome(cards@) == after_ids(ids@, cards_outcome(cards@.skip(i as int))),
        decreases cards@.len() - i,
    {
        proof {
            assert(cards@.skip(i as int).drop_first() =~= cards@.skip(i + 1));
            assert(cards@.skip(i as int)[0] == cards@[i as int]);
        }
        let ticket = match parse_ticket(patterns, &cards[i]) {
            Ok(t) => t,
            Err(e) => {
                return Err(e);
            },
        };
        let flag = match regex_flag(patterns, ticket.header.as_str()) {
            Some(f) => Some(f),
            None => regex_flag(patterns, ticket.description.as_str()),
        };
        match flag {
            Some(f) => {
                return Ok(Scan::Flag(f));
            },
            None => {},
        }
        let ghost before = ids@;
        ids.push(ticket.id);
        proof {
            let rest = cards_outcome(cards@.skip(i + 1));
            if rest is NotFound {
                assert(before + (seq![ticket.id] + rest->NotFound_0) =~= ids@ + rest->NotFound_0);
            }
        }
        i = i + 1;
    }
    proof {
        assert(cards@.skip(i as int) =~= Seq::<TicketCard>::empty());
        assert(ids@ + Seq::<usize>::empty() =~= ids@);
    }
    Ok(Scan::NotFound(ids))
}

/// The skip state after marking each of `ids` in order; the largest `usize`
/// is never issued, so marking it is left out.
pub open spec fn skip_each(s: SkipState, ids: Seq<usize>) -> SkipState
    decreases ids.len(),
{
    if ids.len() == 0 {
        s
    } else {
        let t = if ids[0] < usize::MAX {
            s.after_skip(ids[0] as nat)
        } else {
            s
        };
        skip_each(t, ids.drop_first())
    }
}

/// The IDs among `ids` that marking them in order from `s` leaves
/// unmarked: those already behind the cursor, and the largest `usize`.
pub open spec fn rejected_each(s: SkipState, ids: Seq<usize>) -> Seq<usize>
    decreases ids.len(),
{
    if ids.len() == 0 {
        Seq::empty()
    } else {
        let t = if ids[0] < usize::MAX {
            s.after_skip(ids[0] as nat)
        } else {
            s
        };
        if ids[0] < usize::MAX && s.accepts(ids[0] as nat) {
            rejected_each(t, ids.drop_first())
        } else {
            seq![ids[0]] + rejected_each(t, ids.drop_first())
        }
    }
}

/// Marks the tickets that a scan ruled out, so that the run never fetches
/// them, and returns the ones that it could not mark: a ticket already
/// behind the cursor was issued before it was ruled out.
pub fn rule_out(checked: &mut SkipSeq, ids: &Vec<usize>) -> (r: Vec<usize>)
    requires
        old(checked).wf(),
    ensures
        final(checked).wf(),
        final(checked)@.valid(),
        final(checked)@ == skip_each(old(checked)@, ids@),
        r@ == rejected_each(old(checked)@, ids@),
{
    let mut rejected: Vec<usize> = Vec::new();
    let mut i: usize = 0;
    proof {
        assert(ids@.skip(0) =~= ids@);
        assert(Seq::<usize>::empty() + rejected_each(old(checked)@, ids@) =~= rejected_each(
            old(checked)@,
            ids@,
        ));
    }
    while i < ids.len()
        invariant
            i <= ids@.len(),
            checked.wf(),
            skip_each(old(checked)@, ids@) == skip_each(checked@, ids@.skip(i as int)),
            rejected_each(old(checked)@, ids@) == rejected@ + rejected_each(
                checked@,
                ids@.skip(i as int),
            ),
        decreases ids@.len() - i,
    {
        proof {
            assert(ids@.skip(i as int).drop_first() =~= ids@.skip(i + 1));
            assert(ids@.skip(i as int)[0] == ids@[i as int]);
        }
        let ghost before = rejected@;
        let ghost s0 = checked@;
        let marked = if ids[i] < usize::MAX {
            checked.skip(ids[i])
        } else {
            false
        };
        if !marked {
            rejected.push(ids[i]);
        }
        proof {
            let rest = rejected_each(checked@, ids@.skip(i + 1));
            if !marked {
                assert(before + (seq![ids@[i as int]] + rest) =~= rejected@ + rest);
            }
        }
        i = i + 1;
    }
    proof {
        checked.lemma_valid();
        assert(ids@.skip(i as int) =~= Seq::<usize>::empty());
        assert(rejected@ + Seq::<usize>::empty() =~= rejected@);
    }
    rejected
}

} // verus!
