//! Streams that are cut short, or that something follows.
//!
//! What is read of a stream does not depend on the bytes behind it. So the frames of
//! a stream that is cut short are frames of the whole, and its end is never reached.
use super::decoder::{
    header, image_at, image_stop, opened, table_at, walk, walk_stop, Found, Reel, MAX_COMPRESSED, MAX_EXTENSION,
};
use super::format::{chain, chain_stop, lemma_chain_shortens, past_chain, GraphicControl, ImageDescriptor};
use super::label::{EXTENSION, GRAPHIC_CONTROL, IMAGE, TRAILER};
use vstd::prelude::*;

verus! {

/// A chain of sub-blocks is read alike whatever follows it.
pub proof fn lemma_chain_extends(s: Seq<u8>, more: Seq<u8>, room: int)
    ensures
        chain(s, room) matches Some((payload, rest)) ==> chain(s + more, room) == Some((payload, rest + more)),
        past_chain(s) matches Some(rest) ==> past_chain(s + more) == Some(rest + more),
    decreases s.len(),
{
    let all = s + more;
    if s.len() > 0 {
        assert(all[0] == s[0]);
        if s[0] == 0 {
            assert(all.skip(1) =~= s.skip(1) + more);
        } else if s.len() >= 1 + s[0] {
            let n = 1 + s[0];
            assert(all.skip(n) =~= s.skip(n) + more);
            assert(all.subrange(1, n) =~= s.subrange(1, n));
            lemma_chain_extends(s.skip(n), more, room - s[0]);
        }
    }
}

/// Blocks are walked over alike whatever follows them.
pub proof fn lemma_walk_extends(s: Seq<u8>, more: Seq<u8>, control: GraphicControl)
    ensures
        walk(s, control) matches Some(Found::End(rest)) ==> walk(s + more, control) == Some(Found::End(rest + more)),
        walk(s, control) matches Some(Found::Image(c, from)) ==> walk(s + more, control) == Some(
            Found::Image(c, from + more),
        ),
    decreases s.len(),
{
    let all = s + more;
    if s.len() > 0 {
        assert(all[0] == s[0]);
        if s[0] == TRAILER || s[0] == IMAGE {
            assert(all.skip(1) =~= s.skip(1) + more);
        } else if s[0] == EXTENSION && s.len() >= 2 {
            assert(all[1] == s[1]);
            assert(all.skip(2) =~= s.skip(2) + more);
            lemma_chain_extends(s.skip(2), more, MAX_EXTENSION as int);
            lemma_chain_shortens(s.skip(2), MAX_EXTENSION as int);
            if s[1] == GRAPHIC_CONTROL {
                if let Some((payload, rest)) = chain(s.skip(2), MAX_EXTENSION as int) {
                    lemma_walk_extends(rest, more, GraphicControl::of(payload));
                }
            } else if let Some(rest) = past_chain(s.skip(2)) {
                lemma_walk_extends(rest, more, control);
            }
        }
    }
}

/// A colour table is read alike whatever follows it.
proof fn lemma_table_extends(s: Seq<u8>, more: Seq<u8>, entries: int)
    requires
        0 <= 3 * entries <= s.len(),
    ensures
        table_at(s + more, entries) == table_at(s, entries),
{
    assert(table_at(s + more, entries) =~= table_at(s, entries));
}

/// An image is read alike whatever follows it.
pub proof fn lemma_image_extends(s: Seq<u8>, more: Seq<u8>, global: Seq<[u8; 3]>, control: GraphicControl)
    ensures
        image_at(s, global, control) matches Some((coded, rest)) ==> image_at(s + more, global, control) == Some(
            (coded, rest + more),
        ),
{
    if image_at(s, global, control) is Some {
        let all = s + more;
        let image = ImageDescriptor::of(s.subrange(0, 9));
        let entries = image.local_table_size as int;
        assert(all.subrange(0, 9) =~= s.subrange(0, 9));
        assert(all.skip(9) =~= s.skip(9) + more);
        lemma_table_extends(s.skip(9), more, entries);
        assert(all.skip(10 + 3 * entries) =~= s.skip(10 + 3 * entries) + more);
        assert(all[9 + 3 * entries] == s[9 + 3 * entries]);
        lemma_chain_extends(s.skip(10 + 3 * entries), more, MAX_COMPRESSED as int);
    }
}

/// A decoder over a stream that is followed by more.
pub open spec fn followed(reel: Reel, more: Seq<u8>) -> Reel {
    Reel { rest: reel.rest + more, ..reel }
}

/// The start of a stream is read alike whatever follows it.
pub proof fn lemma_opened_extends(f: Seq<u8>, more: Seq<u8>)
    ensures
        opened(f) matches Some(reel) ==> opened(f + more) == Some(followed(reel, more)),
{
    if opened(f) is Some {
        let all = f + more;
        assert(all.subrange(0, 6) =~= f.subrange(0, 6));
        assert(all.subrange(6, 13) =~= f.subrange(6, 13));
        assert(all.skip(13) =~= f.skip(13) + more);
        let (screen, rest) = header(f)->0;
        let n = screen.global_table_size as int;
        lemma_table_extends(rest, more, n);
        assert((rest + more).skip(3 * n) =~= rest.skip(3 * n) + more);
    }
}

/// A decoder whose stream is followed by more finds the same image, or the same end,
/// and stands where it would, before what follows.
pub proof fn lemma_advance_extends(reel: Reel, more: Seq<u8>)
    ensures
        reel.advanced() matches Some((image, next)) ==> followed(reel, more).advanced() == Some(
            (image, followed(next, more)),
        ),
{
    if reel.advanced() is Some && !reel.finished {
        lemma_walk_extends(reel.rest, more, GraphicControl::absent());
        if let Some(Found::Image(control, from)) = walk(reel.rest, GraphicControl::absent()) {
            lemma_image_extends(from, more, reel.global, control);
        }
    }
}

/// Whether bytes are the last ones of others.
pub open spec fn suffix(whole: Seq<u8>, part: Seq<u8>) -> bool {
    part.len() <= whole.len() && part == whole.skip(whole.len() - part.len())
}

/// The last ones of the last ones are the last ones of the whole.
pub proof fn lemma_suffixes(whole: Seq<u8>, part: Seq<u8>, end: Seq<u8>)
    requires
        suffix(whole, part),
        suffix(part, end),
    ensures
        suffix(whole, end),
{
    assert(end =~= whole.skip(whole.len() - end.len()));
}

/// What is left of bytes behind some of them.
proof fn lemma_skip_suffix(s: Seq<u8>, n: int)
    requires
        0 <= n <= s.len(),
    ensures
        suffix(s, s.skip(n)),
        suffix(s, Seq::empty()),
{
    assert(s.skip(s.len() as int) =~= Seq::<u8>::empty());
}

/// What is behind a chain of sub-blocks is the end of its stream, and so is what is
/// left where there is none.
pub proof fn lemma_chain_suffix(s: Seq<u8>, room: int)
    ensures
        chain(s, room) matches Some((_, rest)) ==> suffix(s, rest),
        past_chain(s) matches Some(rest) ==> suffix(s, rest),
        suffix(s, chain_stop(s, room)),
    decreases s.len(),
{
    lemma_skip_suffix(s, 0);
    assert(s.skip(0) =~= s);
    if s.len() > 0 {
        lemma_skip_suffix(s, 1);
        if s[0] != 0 && s.len() >= 1 + s[0] {
            let behind = s.skip(1 + s[0]);
            lemma_skip_suffix(s, 1 + s[0]);
            lemma_chain_suffix(behind, room - s[0]);
            lemma_suffixes(s, behind, chain_stop(behind, room - s[0]));
            if let Some((_, rest)) = chain(behind, room - s[0]) {
                lemma_suffixes(s, behind, rest);
            }
            if let Some(rest) = past_chain(behind) {
                lemma_suffixes(s, behind, rest);
            }
        }
    }
}

/// Where a walk over blocks stops, the end of its stream is left.
pub proof fn lemma_walk_suffix(s: Seq<u8>, control: GraphicControl)
    ensures
        walk(s, control) matches Some(Found::End(rest)) ==> suffix(s, rest),
        walk(s, control) matches Some(Found::Image(_, from)) ==> suffix(s, from),
        suffix(s, walk_stop(s)),
    decreases s.len(), 1int,
{
    lemma_skip_suffix(s, 0);
    assert(s.skip(0) =~= s);
    if s.len() > 0 {
        lemma_skip_suffix(s, 1);
        if s[0] == EXTENSION && s.len() >= 2 {
            let body = s.skip(2);
            lemma_skip_suffix(s, 2);
            lemma_chain_suffix(body, MAX_EXTENSION as int);
            lemma_chain_shortens(body, MAX_EXTENSION as int);
            lemma_suffixes(s, body, chain_stop(body, MAX_EXTENSION as int));
            if s[1] == GRAPHIC_CONTROL {
                if let Some((payload, rest)) = chain(body, MAX_EXTENSION as int) {
                    lemma_suffixes(s, body, rest);
                    lemma_walk_on(s, rest, GraphicControl::of(payload));
                }
            } else if let Some(rest) = past_chain(body) {
                lemma_suffixes(s, body, rest);
                lemma_walk_on(s, rest, control);
            }
        }
    }
}

/// Where a walk over the blocks of the end of a stream stops, the end of the stream is
/// left.
proof fn lemma_walk_on(s: Seq<u8>, rest: Seq<u8>, control: GraphicControl)
    requires
        suffix(s, rest),
        rest.len() < s.len(),
    ensures
        walk(rest, control) matches Some(Found::End(end)) ==> suffix(s, end),
        walk(rest, control) matches Some(Found::Image(_, from)) ==> suffix(s, from),
        suffix(s, walk_stop(rest)),
    decreases s.len(), 0int,
{
    lemma_walk_suffix(rest, control);
    lemma_suffixes(s, rest, walk_stop(rest));
    match walk(rest, control) {
        Some(Found::End(end)) => lemma_suffixes(s, rest, end),
        Some(Found::Image(_, from)) => lemma_suffixes(s, rest, from),
        None => {},
    }
}

/// What is behind an image is the end of its stream, and so is what is left where
/// there is none.
pub proof fn lemma_image_suffix(s: Seq<u8>, global: Seq<[u8; 3]>, control: GraphicControl)
    ensures
        image_at(s, global, control) matches Some((_, rest)) ==> suffix(s, rest),
        suffix(s, image_stop(s, global)),
{
    let image = ImageDescriptor::of(s.subrange(0, 9));
    let own = 3 * (image.local_table_size as int);
    lemma_skip_suffix(s, 0);
    if s.len() >= 9 {
        lemma_skip_suffix(s, 9);
        if s.len() >= 10 + own {
            let body = s.skip(10 + own);
            lemma_skip_suffix(s, 10 + own);
            lemma_chain_suffix(body, MAX_COMPRESSED as int);
            lemma_suffixes(s, body, chain_stop(body, MAX_COMPRESSED as int));
            if let Some((_, rest)) = chain(body, MAX_COMPRESSED as int) {
                lemma_suffixes(s, body, rest);
            }
        }
    }
}

/// A chain that is too long is too long whatever follows it.
pub proof fn lemma_chain_stays(s: Seq<u8>, more: Seq<u8>, room: int)
    requires
        chain(s, room) is None,
        chain_stop(s, room).len() > 0,
    ensures
        chain(s + more, room) is None,
        chain_stop(s + more, room) == chain_stop(s, room) + more,
    decreases s.len(),
{
    let all = s + more;
    assert(all[0] == s[0]);
    if s[0] > room {
        assert(all.skip(1) =~= s.skip(1) + more);
    } else {
        let n = 1 + s[0];
        assert(all.skip(n) =~= s.skip(n) + more);
        lemma_chain_stays(s.skip(n), more, room - s[0]);
    }
}

/// A block that is not one is none whatever follows it.
pub proof fn lemma_walk_stays(s: Seq<u8>, more: Seq<u8>, control: GraphicControl)
    requires
        walk(s, control) is None,
        walk_stop(s).len() > 0,
    ensures
        walk(s + more, control) is None,
        walk_stop(s + more) == walk_stop(s) + more,
    decreases s.len(),
{
    let all = s + more;
    assert(all[0] == s[0]);
    if s[0] != EXTENSION {
        assert(all.skip(1) =~= s.skip(1) + more);
    } else {
        assert(all[1] == s[1]);
        assert(all.skip(2) =~= s.skip(2) + more);
        let body = s.skip(2);
        lemma_chain_extends(body, more, MAX_EXTENSION as int);
        lemma_chain_shortens(body, MAX_EXTENSION as int);
        if s[1] == GRAPHIC_CONTROL {
            match chain(body, MAX_EXTENSION as int) {
                Some((payload, rest)) => lemma_walk_stays(rest, more, GraphicControl::of(payload)),
                None => lemma_chain_stays(body, more, MAX_EXTENSION as int),
            }
        } else if let Some(rest) = past_chain(body) {
            lemma_walk_stays(rest, more, control);
        }
    }
}

/// A decoder that does not want more bytes is not changed by them: what it finds, or
/// that it fails, and where it stands, is the same whatever follows.
pub proof fn lemma_more_changes_nothing(reel: Reel, more: Seq<u8>)
    requires
        !reel.wanting(),
    ensures
        match reel.advanced() {
            Some((image, next)) => followed(reel, more).advanced() == Some((image, followed(next, more))),
            None => followed(reel, more).advanced() is None && followed(reel, more).failed() == followed(
                reel.failed(),
                more,
            ),
        },
{
    lemma_advance_extends(reel, more);
    if reel.advanced() is None {
        let absent = GraphicControl::absent();
        let (s, all) = (reel.rest, reel.rest + more);
        match walk(s, absent) {
            Some(Found::Image(control, from)) => {
                lemma_walk_extends(s, more, absent);
                let both = from + more;
                let image = ImageDescriptor::of(from.subrange(0, 9));
                let own = 3 * (image.local_table_size as int);
                assert(both.subrange(0, 9) =~= from.subrange(0, 9));
                assert(both.skip(9) =~= from.skip(9) + more);
                if !(image.width == 0 || image.height == 0 || (own == 0 && reel.global.len() == 0)) {
                    assert(both.skip(10 + own) =~= from.skip(10 + own) + more);
                    lemma_chain_stays(from.skip(10 + own), more, MAX_COMPRESSED as int);
                }
                assert(image_stop(both, reel.global) == image_stop(from, reel.global) + more);
            },
            _ => {
                lemma_walk_stays(s, more, absent);
            },
        }
    }
}

/// The end of a stream that is cut short is never found: where a stream ends with its
/// last block and has no further image, it is malformed once a byte of it is missing.
pub proof fn lemma_cut_is_not_the_end(reel: Reel, n: int)
    requires
        !reel.finished,
        reel.advanced() matches Some((image, next)) && image is None && next.rest.len() == 0,
        0 <= n < reel.rest.len(),
    ensures
        (Reel { rest: reel.rest.take(n), ..reel }).advanced() is None,
{
    let cut = Reel { rest: reel.rest.take(n), ..reel };
    let more = reel.rest.skip(n);
    assert(cut.rest + more =~= reel.rest);
    assert(followed(cut, more) == reel);
    lemma_advance_extends(cut, more);
}

} // verus!
