//! Pulling typed arguments out of a parsed command frame.
//!
//! A command arrives as an array of bulk strings; [`Parse`] walks that
//! array in order, handing each argument out as a string, so the command
//! handlers never touch raw frames.

use vstd::prelude::*;

verus! {

use vstd::utf8::{valid_utf8, decode_utf8};
use crate::frame::{Frame, FrameV, views_of};

broadcast use vstd::std_specs::vec::group_vec_axioms, vstd::seq::group_seq_axioms;

/// Walks the arguments of one command frame in arrival order.
#[derive(Debug)]
pub struct Parse {
    parts: Vec<Frame>,
}

/// Why an argument could not be handed out.
#[derive(Debug, Clone, Copy, PartialEq, Eq, Structural)]
pub enum ParseError {
    /// All arguments are consumed.
    EndOfStream,
    /// The argument's bytes are not valid UTF-8.
    RevertFailed,
    /// The frame at hand is not a string-like argument.
    WrongType,
}

/// The string an argument frame denotes: simple strings directly, bulk
/// strings through UTF-8; anything else is no argument.
pub open spec fn frame_as_string(f: FrameV) -> Result<Seq<char>, ParseError> {
    match f {
        FrameV::Simple(s) => Ok(s),
        FrameV::Bulk(d) => if valid_utf8(d) {
            Ok(decode_utf8(d))
        } else {
            Err(ParseError::RevertFailed)
        },
        _ => Err(ParseError::WrongType),
    }
}

/// The `i`-th remaining argument as a string, if it is one.
pub open spec fn string_arg(rem: Seq<FrameV>, i: int) -> Option<Seq<char>> {
    if 0 <= i < rem.len() {
        match frame_as_string(rem[i]) {
            Result::Ok(t) => Some(t),
            Result::Err(_) => None::<Seq<char>>,
        }
    } else {
        None::<Seq<char>>
    }
}

/// The longest run of readable string arguments at the front of `rem`.
pub open spec fn args_prefix(rem: Seq<FrameV>) -> Seq<Seq<char>>
    decreases rem.len(),
{
    if rem.len() > 0 && frame_as_string(rem[0]) is Ok {
        seq![frame_as_string(rem[0])->Ok_0] + args_prefix(rem.skip(1))
    } else {
        Seq::<Seq<char>>::empty()
    }
}

pub open spec fn is_string_like(f: FrameV) -> bool {
    f is Simple || f is Bulk
}

/// How many string-like frames stand at the front of `s`.
pub open spec fn count_leading_strings(s: Seq<FrameV>) -> int
    decreases s.len(),
{
    if s.len() == 0 {
        0
    } else if is_string_like(s[0]) {
        1 + count_leading_strings(s.skip(1))
    } else {
        0
    }
}

pub proof fn lemma_count_leading_strings_bound(s: Seq<FrameV>)
    ensures
        0 <= count_leading_strings(s) <= s.len(),
    decreases s.len(),
{
    if s.len() > 0 && is_string_like(s[0]) {
        lemma_count_leading_strings_bound(s.skip(1));
    }
}

impl Parse {
    /// The arguments not yet consumed, in order.
    pub closed spec fn remaining(&self) -> Seq<FrameV> {
        views_of(self.parts@)
    }

    /// Wraps a parsed command frame, which must be a non-empty read that
    /// is an array of arguments.
    pub fn new(data: Option<Frame>) -> (r: Result<Parse, ParseError>)
        ensures
            match data {
                Option::None => r == Err::<Parse, ParseError>(ParseError::EndOfStream),
                Option::Some(f) => if f@ is Array {
                    (r matches Ok(p) && p.remaining() == f@->Array_0)
                } else {
                    r == Err::<Parse, ParseError>(ParseError::WrongType)
                },
            },
    {
        match data {
            Option::None => Err(ParseError::EndOfStream),
            Option::Some(frame) => match frame {
                Frame::Array(parts) => Ok(Parse { parts }),
                _ => Err(ParseError::WrongType),
            },
        }
    }

    /// Hands out the next argument frame.
    fn next(&mut self) -> (r: Result<Frame, ParseError>)
        ensures
            old(self).remaining().len() == 0 ==> r == Err::<Frame, ParseError>(
                ParseError::EndOfStream,
            ) && final(self).remaining() == old(self).remaining(),
            old(self).remaining().len() > 0 ==> (r matches Ok(f) && f@ == old(
                self,
            ).remaining()[0] && final(self).remaining() == old(self).remaining().skip(1)),
    {
        proof {
            crate::frame::lemma_views_of(self.parts@);
        }
        if self.parts.len() == 0 {
            Err(ParseError::EndOfStream)
        } else {
            let ghost pre = self.parts@;
            let f = self.parts.remove(0);
            proof {
                crate::frame::lemma_views_of(self.parts@);
                crate::frame::lemma_views_of(pre);
                assert(self.parts@ =~= pre.skip(1));
                assert(views_of(self.parts@) =~= views_of(pre).skip(1));
            }
            Ok(f)
        }
    }

    /// Hands out the next argument as a string: a simple string as it is,
    /// a bulk string decoded from UTF-8.
    pub fn next_string(&mut self) -> (r: Result<String, ParseError>)
        ensures
            old(self).remaining().len() == 0 ==> r == Err::<String, ParseError>(
                ParseError::EndOfStream,
            ) && final(self).remaining() == old(self).remaining(),
            old(self).remaining().len() > 0 ==> final(self).remaining() == old(
                self,
            ).remaining().skip(1) && (match frame_as_string(old(self).remaining()[0]) {
                Result::Ok(t) => (r matches Ok(x) && x@ == t),
                Result::Err(e) => r == Err::<String, ParseError>(e),
            }),
    {
        match self.next() {
            Err(e) => Err(e),
            Ok(Frame::Simple(s)) => Ok(s),
            Ok(Frame::Bulk(d)) => match crate::frame::string_from_utf8(d) {
                Option::Some(s) => Ok(s),
                Option::None => Err(ParseError::RevertFailed),
            },
            Ok(_) => Err(ParseError::WrongType),
        }
    }

    /// Consumes and returns the run of readable string arguments at the
    /// front, stopping at the first frame that is none.
    pub fn collect_strings(&mut self) -> (r: Vec<String>)
        ensures
            r.deep_view() == args_prefix(old(self).remaining()),
    {
        let mut out: Vec<String> = Vec::new();
        proof {
            assert(out.deep_view() + args_prefix(self.remaining()) =~= args_prefix(
                self.remaining(),
            ));
        }
        loop
            invariant_except_break
                args_prefix(old(self).remaining()) == out.deep_view() + args_prefix(
                    self.remaining(),
                ),
            ensures
                out.deep_view() == args_prefix(old(self).remaining()),
            decreases self.remaining().len(),
        {
            let ghost rem = self.remaining();
            let ghost pre = out.deep_view();
            match self.next_string() {
                Result::Ok(s) => {
                    proof {
                        if rem.len() == 0 {
                            assert(false);
                        }
                    }
                    let ghost sv = s@;
                    out.push(s);
                    proof {
                        assert(out.deep_view() =~= pre.push(sv));
                        assert(args_prefix(rem) == seq![sv] + args_prefix(rem.skip(1)));
                        assert(pre + (seq![sv] + args_prefix(rem.skip(1))) =~= out.deep_view()
                            + args_prefix(rem.skip(1)));
                    }
                }
                Result::Err(_) => {
                    proof {
                        if rem.len() > 0 {
                            assert(args_prefix(rem) =~= Seq::<Seq<char>>::empty());
                        }
                        assert(pre + Seq::<Seq<char>>::empty() =~= pre);
                    }
                    break ;
                }
            }
        }
        out
    }

    /// The number of arguments still ahead: the string-like frames up to
    /// the first frame of any other shape.
    pub fn args_number(&self) -> (r: usize)
        ensures
            r == count_leading_strings(self.remaining()),
    {
        proof {
            crate::frame::lemma_views_of(self.parts@);
            lemma_count_leading_strings_bound(self.remaining());
        }
        let mut count: usize = 0;
        let n = self.parts.len();
        assert(self.remaining().skip(0) =~= self.remaining());
        while count < n
            invariant
                0 <= count <= n,
                n == self.parts@.len(),
                count_leading_strings(self.remaining()) == count + count_leading_strings(
                    self.remaining().skip(count as int),
                ),
            decreases n - count,
        {
            let keep = match &self.parts[count] {
                Frame::Simple(_) => true,
                Frame::Bulk(_) => true,
                _ => false,
            };
            proof {
                crate::frame::lemma_views_of(self.parts@);
                assert(self.remaining().skip(count as int)[0] == self.remaining()[count as int]);
                assert(self.remaining()[count as int] == self.parts@[count as int]@);
                assert(self.remaining().skip(count as int).skip(1) =~= self.remaining().skip(
                    count + 1,
                ));
            }
            if !keep {
                assert(count_leading_strings(self.remaining().skip(count as int)) == 0);
                return count;
            }
            count = count + 1;
        }
        assert(self.remaining().skip(count as int).len() == 0);
        count
    }
}

} // verus!
