//! The publish/subscribe commands.
//!
//! The registry and every decision — which channel names exist, which
//! patterns match a publish, what the confirmation frames say — live
//! here; the broadcast channels themselves and the delivery loops are
//! the binary's, keyed by the same names.

use vstd::prelude::*;

verus! {

use vstd::utf8::encode_utf8;
use crate::db::{Db, matching_patterns, string_views};
use crate::frame::{Frame, FrameV, views_of, lemma_views_of, lemma_views_of_push};
use crate::parse::{Parse, ParseError, string_arg, args_prefix};
use crate::cmd_misc::{int_len, len_to_i64};

/// `PUBLISH channel message`.
pub struct Publish {
    pub channel: String,
    pub message: String,
}

impl Publish {
    /// Decides a publish: replies the count of senders to fire — one per
    /// registered pattern that prefixes the channel, plus one when the
    /// exact channel is registered — and hands the matched pattern names
    /// and the exact-match flag to the caller, which performs the sends.
    pub fn publish_command(db: &mut Db, parse: &mut Parse) -> (r: (Frame, Vec<String>, bool))
        requires
            old(db).wf(),
        ensures
            final(db).wf(),
            *final(db) == *old(db),
            ({
                let rem = old(parse).remaining();
                let c = string_arg(rem, 0);
                let m = string_arg(rem, 1);
                if crate::parse::count_leading_strings(rem) == 2 && c is Some && m is Some {
                    let hits = matching_patterns(old(db).patterns(), c->Some_0);
                    let exact = old(db).channels().contains(c->Some_0);
                    &&& string_views(r.1@) == hits
                    &&& r.2 == exact
                    &&& r.0@ == FrameV::Integer(
                        int_len((hits.len() + (if exact {
                            1int
                        } else {
                            0int
                        })) as nat),
                    )
                } else {
                    r.0@ == FrameV::Error("ERR wrong number of arguments for 'publish' command"@)
                        && r.1@.len() == 0 && r.2 == false
                }
            }),
    {
        match crate::cmd_hash::parse_exactly_two(parse) {
            Result::Ok(t) => {
                let targets = db.publish_targets(&t.0);
                let hits = targets.0;
                let exact = targets.1;
                let ghost hv = string_views(hits@);
                proof {
                    lemma_matching_len(db.patterns(), t.0@);
                }
                let base = hits.len();
                let count_reply: i64 = if exact {
                    if (base as u64) >= (i64::MAX as u64) {
                        i64::MAX
                    } else {
                        ((base as u64) + 1) as i64
                    }
                } else {
                    len_to_i64(base)
                };
                (Frame::Integer(count_reply), hits, exact)
            }
            Result::Err(_) => (
                Frame::Error(String::from_str("ERR wrong number of arguments for 'publish' command")),
                Vec::new(),
                false,
            ),
        }
    }
}

/// A matching pass never yields more patterns than are registered.
pub proof fn lemma_matching_len(pats: Seq<Seq<char>>, c: Seq<char>)
    ensures
        matching_patterns(pats, c).len() <= pats.len(),
    decreases pats.len(),
{
    if pats.len() > 0 {
        lemma_matching_len(pats.skip(1), c);
    }
}

/// The confirmation frames a subscribe sends: for the `i`-th name, the
/// verb, the name, and the one-based sequence number.
pub open spec fn confirm_frame(verb: Seq<char>, name: Seq<char>, index: int) -> FrameV {
    FrameV::Array(
        seq![
            FrameV::Bulk(encode_utf8(verb)),
            FrameV::Bulk(encode_utf8(name)),
            FrameV::Integer(if index + 1 > i64::MAX {
                i64::MAX
            } else {
                (index + 1) as i64
            }),
        ],
    )
}

/// Builds the confirmation frame for one subscription.
fn build_confirm(verb: &str, name: &String, index: usize) -> (r: Frame)
    ensures
        r@ == confirm_frame(verb@, name@, index as int),
{
    let mut parts: Vec<Frame> = Vec::new();
    parts.push(Frame::Bulk(verb.as_bytes_vec()));
    parts.push(Frame::Bulk(name.as_str().as_bytes_vec()));
    let seqno: i64 = if (index as u64) >= (i64::MAX as u64) {
        i64::MAX
    } else {
        ((index as u64) + 1) as i64
    };
    parts.push(Frame::Integer(seqno));
    proof {
        lemma_views_of(parts@);
        assert(views_of(parts@) =~= confirm_frame(verb@, name@, index as int)->Array_0);
    }
    Frame::Array(parts)
}

/// `SUBSCRIBE channel [channel ...]`.
pub struct Subscribe {
    pub channels: Vec<String>,
}

impl Subscribe {
    /// The subscribed channel names, in order.
    pub closed spec fn names(&self) -> Seq<Seq<char>> {
        self.channels.deep_view()
    }

    /// Reads the channel names; at least one is required.
    pub fn parse_command(parse: &mut Parse) -> (r: Result<Subscribe, ParseError>)
        ensures
            ({
                let names = args_prefix(old(parse).remaining());
                if names.len() > 0 {
                    (r matches Ok(s) && s.names() == names)
                } else {
                    r is Err
                }
            }),
    {
        let channels = parse.collect_strings();
        if channels.len() == 0 {
            return Err(ParseError::EndOfStream);
        }
        Ok(Subscribe { channels })
    }

    /// The parsed channel names.
    pub fn channels(&self) -> (r: &Vec<String>)
        ensures
            r.deep_view() == self.names(),
    {
        &self.channels
    }

    /// Registers every name and builds its confirmation frame, in order;
    /// the caller attaches a receiver per name and writes the frames
    /// out.
    #[verifier::loop_isolation(false)]
    pub fn subscribe_channels(&self, db: &mut Db) -> (r: Vec<Frame>)
        requires
            old(db).wf(),
        ensures
            final(db).wf(),
            final(db).patterns() == old(db).patterns(),
            final(db).wal_enabled() == old(db).wal_enabled(),
            final(db).wal_pending() == old(db).wal_pending(),
            final(db).entries() == old(db).entries(),
            r@.len() == self.names().len(),
            forall|i: int|
                0 <= i < r@.len() ==> #[trigger] r@[i]@ == confirm_frame(
                    "subscribe"@,
                    self.names()[i],
                    i,
                ),
            forall|c: Seq<char>|
                final(db).channels().contains(c) <==> (old(db).channels().contains(c)
                    || self.names().contains(c)),
    {
        let ghost names = self.channels.deep_view();
        let mut out: Vec<Frame> = Vec::new();
        let mut i: usize = 0;
        while i < self.channels.len()
            invariant
                0 <= i <= names.len(),
                db.wf(),
                db.patterns() == old(db).patterns(),
                db.wal_enabled() == old(db).wal_enabled(),
                db.wal_pending() == old(db).wal_pending(),
                db.entries() == old(db).entries(),
                out@.len() == i,
                forall|q: int|
                    0 <= q < i ==> #[trigger] out@[q]@ == confirm_frame("subscribe"@, names[q], q),
                forall|c: Seq<char>|
                    db.channels().contains(c) <==> (old(db).channels().contains(c) || exists|q: int|
                        0 <= q < i && #[trigger] names[q] == c),
            decreases names.len() - i,
        {
            proof {
                assert(names[i as int] == self.channels@[i as int]@);
            }
            let f = build_confirm("subscribe", &self.channels[i], i);
            out.push(f);
            let ghost pre_ch = db.channels();
            let fresh = db.subscribe(&self.channels[i]);
            proof {
                let name = names[i as int];
                assert forall|c: Seq<char>| db.channels().contains(c) implies (old(
                    db,
                ).channels().contains(c) || exists|q: int|
                    0 <= q < i + 1 && #[trigger] names[q] == c) by {
                    if pre_ch.contains(c) {
                    } else {
                        assert(db.channels() == pre_ch.push(name));
                        let w = choose|w: int|
                            0 <= w < db.channels().len() && db.channels()[w] == c;
                        if w < pre_ch.len() {
                            assert(pre_ch[w] == c);
                        } else {
                            assert(c == name);
                            assert(names[i as int] == c);
                        }
                    }
                }
                assert forall|c: Seq<char>|
                    (old(db).channels().contains(c) || exists|q: int|
                        0 <= q < i + 1 && #[trigger] names[q] == c) implies db.channels().contains(
                    c,
                ) by {
                    if old(db).channels().contains(c) || (exists|q: int|
                        0 <= q < i && #[trigger] names[q] == c) {
                        assert(pre_ch.contains(c));
                        let w = choose|w: int| 0 <= w < pre_ch.len() && pre_ch[w] == c;
                        if fresh {
                            assert(db.channels()[w] == c);
                        }
                    } else {
                        assert(c == name);
                        if fresh {
                            assert(db.channels()[pre_ch.len() as int] == c);
                        } else {
                            assert(pre_ch.contains(c));
                            let w = choose|w: int| 0 <= w < pre_ch.len() && pre_ch[w] == c;
                            assert(db.channels()[w] == c);
                        }
                    }
                }
            }
            i = i + 1;
        }
        proof {
            assert forall|c: Seq<char>| db.channels().contains(c) implies (old(
                db,
            ).channels().contains(c) || names.contains(c)) by {
                if !old(db).channels().contains(c) {
                    let q = choose|q: int| 0 <= q < i && names[q] == c;
                    assert(names[q] == c);
                }
            }
            assert forall|c: Seq<char>|
                (old(db).channels().contains(c) || names.contains(c)) implies db.channels(
            ).contains(c) by {
                if names.contains(c) {
                    let q = choose|q: int| 0 <= q < names.len() && names[q] == c;
                    assert(0 <= q < i && names[q] == c);
                }
            }
        }
        out
    }
}

/// `PSUBSCRIBE pattern [pattern ...]`.
pub struct PSubscribe {
    pub patterns: Vec<String>,
}

impl PSubscribe {
    /// The subscribed pattern names, in order, wildcards still attached.
    pub closed spec fn names(&self) -> Seq<Seq<char>> {
        self.patterns.deep_view()
    }

    /// Reads the pattern names; at least one is required.
    pub fn parse_command(parse: &mut Parse) -> (r: Result<PSubscribe, ParseError>)
        ensures
            ({
                let names = args_prefix(old(parse).remaining());
                if names.len() > 0 {
                    (r matches Ok(s) && s.names() == names)
                } else {
                    r is Err
                }
            }),
    {
        let patterns = parse.collect_strings();
        if patterns.len() == 0 {
            return Err(ParseError::EndOfStream);
        }
        Ok(PSubscribe { patterns })
    }

    /// The parsed pattern names.
    pub fn patterns(&self) -> (r: &Vec<String>)
        ensures
            r.deep_view() == self.names(),
    {
        &self.patterns
    }

    /// Registers every name through the wildcard form and builds its
    /// confirmation frame, in order.
    #[verifier::loop_isolation(false)]
    pub fn subscribe_patterns(&self, db: &mut Db) -> (r: Vec<Frame>)
        requires
            old(db).wf(),
        ensures
            final(db).wf(),
            final(db).wal_enabled() == old(db).wal_enabled(),
            final(db).wal_pending() == old(db).wal_pending(),
            final(db).entries() == old(db).entries(),
            r@.len() == self.names().len(),
            forall|i: int|
                0 <= i < r@.len() ==> #[trigger] r@[i]@ == confirm_frame(
                    "psubscribe"@,
                    self.names()[i],
                    i,
                ),
    {
        let ghost names = self.patterns.deep_view();
        let mut out: Vec<Frame> = Vec::new();
        let mut i: usize = 0;
        while i < self.patterns.len()
            invariant
                0 <= i <= names.len(),
                db.wf(),
                db.wal_enabled() == old(db).wal_enabled(),
                db.wal_pending() == old(db).wal_pending(),
                db.entries() == old(db).entries(),
                out@.len() == i,
                forall|q: int|
                    0 <= q < i ==> #[trigger] out@[q]@ == confirm_frame("psubscribe"@, names[q], q),
            decreases names.len() - i,
        {
            proof {
                assert(names[i as int] == self.patterns@[i as int]@);
            }
            let f = build_confirm("psubscribe", &self.patterns[i], i);
            out.push(f);
            let _fresh = db.psubscribe(&self.patterns[i]);
            i = i + 1;
        }
        out
    }
}

} // verus!
