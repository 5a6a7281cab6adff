//! HappyMH manga lists: the `items` array of a list reply becomes the
//! cards of the answer, with a cursor to the next page unless the site
//! says the list ends.
use vstd::prelude::*;
use vstd::string::StringSliceAdditionalSpecFns;
use crate::json_utils::{appended, contains_bytes, decimal, extract_json_string, lemma_appended_fail_extend, lemma_appended_then, put_str};
use crate::units::{fitting, lemma_wrote_fail_extend, lemma_wrote_then, wrote_units};
use crate::pieces::{
    concat_units, item_units, lemma_units_empty, lemma_units_item_fail, lemma_units_item_ok, lemma_whole_items_at,
    listed, whole_items, item_unit, joined, joined_written, lemma_item_fail, lemma_item_ok, lemma_joined_empty, lemma_joined_prefix,
    lemma_list_text, pieces_bytes, put_pieces, Piece,
};
use crate::sources::happymh::{
    array_for_key_of, card_code_of, card_json, contains_bytes_spec, extract_array_for_key,
    extract_object_for_key, is_json_true, is_json_true_spec, next_raw_object, next_raw_spec, object_for_key_of,
    write_manga_card, card_units,
};

verus! {

/// The cards of the objects of an array from `pos` on, an object without
/// a code giving none.
pub open spec fn cards_from(data: Seq<u8>, pos: int, tag: Seq<u8>) -> Seq<Seq<u8>>
    decreases data.len() - pos,
{
    if pos < 0 || pos > data.len() {
        Seq::empty()
    } else {
        match next_raw_spec(data, pos) {
            (None, _) => Seq::empty(),
            (Some(obj), next) => if next <= pos || next > data.len() {
                Seq::empty()
            } else if card_code_of(obj).len() == 0 {
                cards_from(data, next, tag)
            } else {
                seq![card_json(obj, tag)] + cards_from(data, next, tag)
            },
        }
    }
}

pub const MAX_CARDS: usize = 500;

/// The cards a list answer holds: the first 500.
pub open spec fn listed_cards(items: Seq<u8>, tag: Seq<u8>) -> Seq<Seq<u8>> {
    let all = cards_from(items, 0, tag);
    if all.len() <= MAX_CARDS {
        all
    } else {
        all.take(MAX_CARDS as int)
    }
}

/// The units of the cards of the objects of an array from `pos` on.
pub open spec fn card_units_from(data: Seq<u8>, pos: int, tag: Seq<u8>) -> Seq<Seq<Seq<u8>>>
    decreases data.len() - pos,
{
    if pos < 0 || pos > data.len() {
        Seq::empty()
    } else {
        match next_raw_spec(data, pos) {
            (None, _) => Seq::empty(),
            (Some(obj), next) => if next <= pos || next > data.len() {
                Seq::empty()
            } else if card_code_of(obj).len() == 0 {
                card_units_from(data, next, tag)
            } else {
                seq![card_units(obj, tag)] + card_units_from(data, next, tag)
            },
        }
    }
}

/// The cards a list answer holds, as the units they are written in.
pub open spec fn listed_card_units(items: Seq<u8>, tag: Seq<u8>) -> Seq<Seq<Seq<u8>>> {
    let all = card_units_from(items, 0, tag);
    listed(
        if all.len() <= MAX_CARDS {
            all
        } else {
            all.take(MAX_CARDS as int)
        },
    )
}

proof fn lemma_card_units_len(data: Seq<u8>, pos: int, tag: Seq<u8>)
    ensures
        card_units_from(data, pos, tag).len() == cards_from(data, pos, tag).len(),
    decreases data.len() - pos,
{
    if 0 <= pos <= data.len() {
        match next_raw_spec(data, pos) {
            (None, _) => {},
            (Some(obj), next) => {
                if !(next <= pos || next > data.len()) {
                    lemma_card_units_len(data, next, tag);
                }
            },
        }
    }
}

/// Whether an object has a card: whether it carries a code.
fn has_card(obj: &[u8]) -> (r: bool)
    ensures
        r == (card_code_of(obj@).len() > 0),
{
    match extract_json_string(obj, "manga_code".as_bytes()) {
        Some(v) => v.len() > 0,
        None => match extract_json_string(obj, "code".as_bytes()) {
            Some(v) => v.len() > 0,
            None => false,
        },
    }
}

fn put_card(payload: &mut [u8], c: &mut usize, k: usize, obj: &[u8], tag: &[u8]) -> (ok: bool)
    requires
        *old(c) <= old(payload)@.len(),
    ensures
        appended(old(payload)@, *old(c) as int, item_unit(k > 0, card_json(obj@, tag@)), final(payload)@, *final(c) as int, ok),
        wrote_units(
            old(payload)@,
            *old(c) as int,
            item_units(k > 0, card_units(obj@, tag@)),
            final(payload)@,
            *final(c) as int,
            ok,
        ),
        final(payload)@.len() == old(payload)@.len(),
        *final(c) <= final(payload)@.len(),
{
    proof {
        reveal_strlit(",");
    }
    let ghost d0 = payload@;
    let ghost c0 = *c as int;
    let ghost lead: Seq<u8> = if k > 0 { ",".spec_bytes() } else { Seq::empty() };
    let ghost card = card_json(obj@, tag@);
    if k > 0 {
        if !put_str(payload, c, ",") {
            proof {
                lemma_appended_fail_extend(d0, c0, lead, payload@, *c as int, card);
                lemma_wrote_fail_extend(d0, c0, seq![",".spec_bytes()], payload@, *c as int, card_units(obj@, tag@));
            }
            return false;
        }
    } else {
        assert(payload@ =~= crate::json_utils::splice(d0, c0, lead));
        proof {
            lemma_units_empty(Seq::<Seq<Seq<u8>>>::empty(), d0, c0);
            assert(concat_units(Seq::<Seq<Seq<u8>>>::empty().take(0)) =~= Seq::<Seq<u8>>::empty());
        }
    }
    let ghost dm = payload@;
    let ghost cm = *c as int;
    let ghost lu: Seq<Seq<u8>> = if k > 0 { seq![",".spec_bytes()] } else { Seq::empty() };
    let ok = write_manga_card(payload, c, obj, tag);
    proof {
        lemma_appended_then(d0, c0, lead, dm, cm, card, payload@, *c as int, ok);
        lemma_wrote_then(d0, c0, lu, dm, cm, card_units(obj@, tag@), payload@, *c as int, ok);
    }
    ok
}

/// Writes the cards of the array `items`, stopping at the first that does
/// not fit; how many went out whole.
#[verifier::rlimit(40)]
fn write_cards(payload: &mut [u8], c: &mut usize, items: &[u8], tag: &[u8]) -> (r: usize)
    requires
        *old(c) <= old(payload)@.len(),
        items@.len() < i64::MAX,
        items@.len() < usize::MAX,
    ensures
        appended(
            old(payload)@,
            *old(c) as int,
            joined(listed_cards(items@, tag@)),
            final(payload)@,
            *final(c) as int,
            r == listed_cards(items@, tag@).len(),
        ),
        joined_written(listed_cards(items@, tag@), r as int, *old(c) as int, *final(c) as int),
        wrote_units(
            old(payload)@,
            *old(c) as int,
            concat_units(listed_card_units(items@, tag@)),
            final(payload)@,
            *final(c) as int,
            r == listed_card_units(items@, tag@).len(),
        ),
        r == whole_items(listed_card_units(items@, tag@), old(payload)@.len() - *old(c)),
        final(payload)@.len() == old(payload)@.len(),
        *final(c) <= final(payload)@.len(),
{
    let ghost d0 = payload@;
    let ghost c0 = *c as int;
    let ghost all = cards_from(items@, 0, tag@);
    let ghost cards = listed_cards(items@, tag@);
    let ghost allu = card_units_from(items@, 0, tag@);
    let ghost xs = listed_card_units(items@, tag@);
    let mut pos: usize = 0;
    let mut k: usize = 0;
    proof {
        lemma_joined_empty(cards);
        crate::json_utils::lemma_appended_start(d0, c0);
        assert(all.take(0) + cards_from(items@, 0, tag@) =~= all);
        assert(allu.take(0) + card_units_from(items@, 0, tag@) =~= allu);
        lemma_units_empty(xs, d0, c0);
        lemma_card_units_len(items@, 0, tag@);
    }
    loop
        invariant_except_break
            all == all.take(k as int) + cards_from(items@, pos as int, tag@),
            allu == allu.take(k as int) + card_units_from(items@, pos as int, tag@),
            k < MAX_CARDS,
        invariant
            d0 == old(payload)@,
            c0 == *old(c) as int,
            0 <= c0 <= d0.len(),
            payload@.len() == d0.len(),
            *c <= payload@.len(),
            items@.len() < i64::MAX,
            items@.len() < usize::MAX,
            all == cards_from(items@, 0, tag@),
            cards == listed_cards(items@, tag@),
            pos <= items@.len(),
            k <= all.len(),
            k <= MAX_CARDS,
            appended(d0, c0, joined(cards.take(k as int)), payload@, *c as int, true),
            allu == card_units_from(items@, 0, tag@),
            allu.len() == all.len(),
            xs == listed_card_units(items@, tag@),
            xs.len() == cards.len(),
            wrote_units(d0, c0, concat_units(xs.take(k as int)), payload@, *c as int, true),
        ensures
            k == cards.len(),
            appended(d0, c0, joined(cards), payload@, *c as int, true),
            wrote_units(d0, c0, concat_units(xs), payload@, *c as int, true),
        decreases items@.len() - pos,
    {
        let before = pos;
        let obj = match next_raw_object(items, &mut pos) {
            Some(o) => o,
            None => {
                proof {
                    assert(cards_from(items@, before as int, tag@) =~= Seq::<Seq<u8>>::empty());
                    assert(all.take(k as int) + Seq::<Seq<u8>>::empty() =~= all.take(k as int));
                    assert(cards =~= all);
                    assert(cards.take(k as int) =~= cards);
                    lemma_card_units_len(items@, before as int, tag@);
                    assert(xs.take(k as int) =~= xs);
                }
                break;
            },
        };
        if pos <= before {
            proof {
                assert(cards_from(items@, before as int, tag@) =~= Seq::<Seq<u8>>::empty());
                assert(all.take(k as int) + Seq::<Seq<u8>>::empty() =~= all.take(k as int));
                assert(cards =~= all);
                assert(cards.take(k as int) =~= cards);
                lemma_card_units_len(items@, before as int, tag@);
                assert(xs.take(k as int) =~= xs);
            }
            break;
        }
        if !has_card(obj) {
            assert(cards_from(items@, before as int, tag@) == cards_from(items@, pos as int, tag@));
            assert(card_units_from(items@, before as int, tag@) == card_units_from(items@, pos as int, tag@));
            continue;
        }
        assert(cards_from(items@, before as int, tag@) == seq![card_json(obj@, tag@)] + cards_from(items@, pos as int, tag@));
        let ghost j = k as int;
        proof {
            assert(all[j] == card_json(obj@, tag@)) by {
                assert((all.take(j) + cards_from(items@, before as int, tag@))[j] == card_json(obj@, tag@));
            }
            assert(cards[j] == card_json(obj@, tag@));
            assert(card_units_from(items@, before as int, tag@) == seq![card_units(obj@, tag@)] + card_units_from(
                items@,
                pos as int,
                tag@,
            ));
            assert(allu[j] == card_units(obj@, tag@)) by {
                assert((allu.take(j) + card_units_from(items@, before as int, tag@))[j] == card_units(obj@, tag@));
            }
            assert(xs[j] == item_units(j > 0, card_units(obj@, tag@)));
        }
        let ghost dm = payload@;
        let ghost cm = *c as int;
        if !put_card(payload, c, k, obj, tag) {
            proof {
                lemma_item_fail(cards, j, d0, c0, dm, cm, payload@, *c as int);
                lemma_units_item_fail(xs, j, d0, c0, dm, cm, payload@, *c as int);
                assert(xs.take(j + 1).drop_last() =~= xs.take(j));
                crate::units::lemma_cat_concat(concat_units(xs.take(j)), xs[j]);
                crate::units::lemma_fitting_full(concat_units(xs.take(j)), d0.len() - c0);
                lemma_whole_items_at(xs, d0.len() - c0, j);
            }
            return k;
        }
        proof {
            lemma_item_ok(cards, j, d0, c0, dm, cm, payload@, *c as int);
            assert(all.take(j + 1) + cards_from(items@, pos as int, tag@) =~= all) by {
                assert(all.take(j + 1) =~= all.take(j).push(card_json(obj@, tag@)));
            }
            lemma_units_item_ok(xs, j, d0, c0, dm, cm, payload@, *c as int);
            assert(allu.take(j + 1) + card_units_from(items@, pos as int, tag@) =~= allu) by {
                assert(allu.take(j + 1) =~= allu.take(j).push(card_units(obj@, tag@)));
            }
        }
        k = k + 1;
        if k >= MAX_CARDS {
            proof {
                assert(cards =~= all.take(MAX_CARDS as int));
                assert(cards.take(k as int) =~= cards);
                assert(xs.take(k as int) =~= xs);
            }
            break;
        }
    }
    proof {
        lemma_whole_items_at(xs, d0.len() - c0, k as int);
    }
    k
}

/// Why a list reply gives no list.
#[derive(Clone, Copy, Debug, PartialEq, Eq, Structural)]
pub enum ListError {
    /// The site answered with its browser check.
    VerificationPage,
    /// The reply has no `items` array.
    MissingItems,
    /// The list does not fit.
    Overflow,
}

/// The object a list reply's `items` stand in: its `data` object, else
/// the whole reply.
pub open spec fn list_data(json: Seq<u8>) -> Seq<u8> {
    match object_for_key_of(json, "data".spec_bytes()) {
        Some(d) => d,
        None => json,
    }
}

/// Whether a list reply is an HTML page.
pub open spec fn is_html_spec(json: Seq<u8>) -> bool {
    contains_bytes_spec(json, "<!doctype html".spec_bytes()) || contains_bytes_spec(json, "<html".spec_bytes())
}

/// Whether a list of `written` cards links a next page.
pub open spec fn has_more(data: Seq<u8>, written: int, force_no_more: bool) -> bool {
    !force_no_more && !is_json_true_spec(data, "isEnd".spec_bytes()) && written > 0
}

/// The end of a list answer on page `page`.
pub open spec fn cards_footer(more: bool, page: nat) -> Seq<u8> {
    if more {
        "],\"page\":{\"nextCursor\":\"".spec_bytes() + decimal(page + 1) + "\",\"hasMore\":true}}".spec_bytes()
    } else {
        "],\"page\":{\"nextCursor\":null,\"hasMore\":false}}".spec_bytes()
    }
}

/// The list answer when all its cards fit.
pub open spec fn list_json(json: Seq<u8>, page: nat, tag: Seq<u8>, force_no_more: bool) -> Seq<u8> {
    let data = list_data(json);
    let items = array_for_key_of(data, "items".spec_bytes()).unwrap();
    let cards = listed_cards(items, tag);
    "{\"items\":[".spec_bytes() + joined(cards) + cards_footer(has_more(data, cards.len() as int, force_no_more), page)
}

/// The list answer for a reply with `items`, written into `cap` bytes:
/// its opening, the cards up to the first unit that does not fit, and its
/// end, which links a next page only after a whole card; none where the
/// opening or the end does not fit.
pub open spec fn list_answer(json: Seq<u8>, page: nat, tag: Seq<u8>, force_no_more: bool, cap: nat) -> Option<Seq<u8>> {
    let data = list_data(json);
    let xs = listed_card_units(array_for_key_of(data, "items".spec_bytes()).unwrap(), tag);
    let h = "{\"items\":[".spec_bytes();
    if h.len() > cap {
        None
    } else {
        let room = cap - h.len();
        let p = fitting(concat_units(xs), room);
        let f = cards_footer(has_more(data, whole_items(xs, room) as int, force_no_more), page);
        if h.len() + p.len() + f.len() > cap {
            None
        } else {
            Some(h + p + f)
        }
    }
}

fn put_footer(payload: &mut [u8], c: &mut usize, more: bool, page: usize) -> (ok: bool)
    requires
        *old(c) <= old(payload)@.len(),
        page < usize::MAX,
    ensures
        appended(old(payload)@, *old(c) as int, cards_footer(more, page as nat), final(payload)@, *final(c) as int, ok),
        final(payload)@.len() == old(payload)@.len(),
        *final(c) <= final(payload)@.len(),
{
    if more {
        let ps = [
            Piece::Text("],\"page\":{\"nextCursor\":\""),
            Piece::Number(page + 1),
            Piece::Text("\",\"hasMore\":true}}"),
        ];
        proof {
            reveal_with_fuel(pieces_bytes, 4);
            assert(pieces_bytes(ps@) =~= cards_footer(more, page as nat));
        }
        put_pieces(payload, c, &ps)
    } else {
        put_str(payload, c, "],\"page\":{\"nextCursor\":null,\"hasMore\":false}}")
    }
}

/// Builds the list answer of the reply `json` for page `page`, its cards
/// tagged `tag`; `force_no_more` keeps it from linking a next page. Where
/// the cards do not all fit, the end still follows those that went out.
#[verifier::spinoff_prover]
#[verifier::rlimit(60)]
pub fn list_payload(json: &[u8], page: usize, tag: &[u8], force_no_more: bool, payload: &mut [u8]) -> (r: Result<usize, ListError>)
    requires
        json@.len() < i64::MAX,
        json@.len() < usize::MAX,
        page < usize::MAX,
    ensures
        final(payload)@.len() == old(payload)@.len(),
        array_for_key_of(list_data(json@), "items".spec_bytes()) is None ==> r == Err::<usize, ListError>(
            if is_html_spec(json@) { ListError::VerificationPage } else { ListError::MissingItems },
        ),
        array_for_key_of(list_data(json@), "items".spec_bytes()) is Some ==> match r {
            Ok(n) => n <= old(payload)@.len() && list_answer(json@, page as nat, tag@, force_no_more, old(payload)@.len())
                == Some(final(payload)@.take(n as int)),
            Err(e) => e == ListError::Overflow && list_json(json@, page as nat, tag@, force_no_more).len()
                > old(payload)@.len() && list_answer(json@, page as nat, tag@, force_no_more, old(payload)@.len()) is None,
        },
        array_for_key_of(list_data(json@), "items".spec_bytes()) is Some && list_json(
            json@,
            page as nat,
            tag@,
            force_no_more,
        ).len() <= old(payload)@.len() ==> r == Ok::<usize, ListError>(
            list_json(json@, page as nat, tag@, force_no_more).len() as usize,
        ) && final(payload)@.take(list_json(json@, page as nat, tag@, force_no_more).len() as int) == list_json(
            json@,
            page as nat,
            tag@,
            force_no_more,
        ),
{
    proof {
        reveal_strlit("<!doctype html");
        reveal_strlit("<html");
    }
    let data = match extract_object_for_key(json, "data".as_bytes()) {
        Some(d) => d,
        None => json,
    };
    assert(data@ == list_data(json@));
    let items = match extract_array_for_key(data, "items".as_bytes()) {
        Some(v) => v,
        None => {
            if contains_bytes(json, "<!doctype html".as_bytes()) || contains_bytes(json, "<html".as_bytes()) {
                return Err(ListError::VerificationPage);
            }
            return Err(ListError::MissingItems);
        },
    };
    let ghost cards = listed_cards(items@, tag@);
    let ghost head = "{\"items\":[".spec_bytes();
    let ghost d0 = payload@;
    let mut c: usize = 0;
    proof {
        reveal_strlit("{\"items\":[");
        broadcast use vstd::string::is_ascii_spec_bytes;
        assert(vstd::string::is_ascii("{\"items\":["));
        assert(head.len() == 10);
    }
    if !put_str(payload, &mut c, "{\"items\":[") {
        return Err(ListError::Overflow);
    }
    let ghost dh = payload@;
    let ghost ch = c as int;
    let ghost xs = listed_card_units(items@, tag@);
    assert(ch == 10);
    assert(dh.take(ch) =~= head);
    let written = write_cards(payload, &mut c, items, tag);
    let ghost dc = payload@;
    let ghost cc = c as int;
    let more = !force_no_more && !is_json_true(data, "isEnd".as_bytes()) && written > 0;
    let ghost foot = cards_footer(more, page as nat);
    proof {
        assert(more == has_more(data@, written as int, force_no_more));
        if written == cards.len() {
            assert(list_json(json@, page as nat, tag@, force_no_more) =~= head + joined(cards) + foot);
        }
    }
    if !put_footer(payload, &mut c, more, page) {
        proof {
            let full_foot = cards_footer(has_more(data@, cards.len() as int, force_no_more), page as nat);
            assert(list_json(json@, page as nat, tag@, force_no_more) =~= head + joined(cards) + full_foot);
            if written == cards.len() {
                assert(cc == ch + joined(cards).len());
            } else {
                lemma_joined_prefix(cards, written as int + 1);
                lemma_joined_prefix(cards, written as int);
            }
            crate::units::lemma_fitting_len(concat_units(xs), d0.len() - 10);
        }
        return Err(ListError::Overflow);
    }
    proof {
        let p = fitting(concat_units(xs), d0.len() - 10);
        crate::units::lemma_fitting_len(concat_units(xs), d0.len() - 10);
        assert(payload@.take(c as int) =~= head + p + foot);
        if list_json(json@, page as nat, tag@, force_no_more).len() <= d0.len() {
            if written < cards.len() {
                assert(cc < ch + joined(cards).len());
                assert(list_json(json@, page as nat, tag@, force_no_more) =~= head + joined(cards) + cards_footer(
                    has_more(data@, cards.len() as int, force_no_more),
                    page as nat,
                ));
                assert(false);
            }
        }
    }
    Ok(c)
}

} // verus!
