//! The line parser: splits a raw protocol line into whitespace-trimmed
//! tokens, extracts the chat payload after the `PRIVMSG` keyword, and hands
//! the `@badges=` tag field of the first token to the badge decoder.

use vstd::prelude::*;

use crate::badge::Badge;
use crate::badge::ParseError;
use crate::badge::decode_badges;
use crate::badge::decode_of;
use crate::text::find_seq;
use crate::text::find_seq_in;
use crate::text::split_at_char;
use crate::text::split_char;
use crate::text::starts_with;
use crate::text::str_eq;
use crate::text::str_starts_with;
use crate::text::trim_of;
use crate::text::views_of;

verus! {

/// The command keyword whose following tokens form the payload.
pub open spec fn privmsg_keyword() -> Seq<char> {
    "PRIVMSG"@
}

/// The tag prefix that marks the first token as a badge tag field.
pub open spec fn badges_prefix() -> Seq<char> {
    "@badges="@
}

/// The separator after which the badge tag field is discarded.
pub open spec fn color_sep() -> Seq<char> {
    ";color="@
}

/// The tokens of a line: split on single spaces, each token trimmed.
pub open spec fn tokens_of(s: Seq<char>) -> Seq<Seq<char>> {
    split_char(s, ' ').map_values(|t: Seq<char>| trim_of(t))
}

/// Tokens joined by single spaces, with no trailing space.
pub open spec fn join_spaces(ts: Seq<Seq<char>>) -> Seq<char>
    decreases ts.len(),
{
    if ts.len() == 0 {
        Seq::empty()
    } else if ts.len() == 1 {
        ts[0]
    } else {
        join_spaces(ts.drop_last()) + seq![' '] + ts.last()
    }
}

/// The payload of a token sequence: everything after the first occurrence
/// of the command keyword, joined by single spaces; empty if the keyword
/// never appears.
pub open spec fn payload_of(ts: Seq<Seq<char>>) -> Seq<char>
    decreases ts.len(),
{
    if ts.len() == 0 {
        Seq::empty()
    } else if ts[0] == privmsg_keyword() {
        join_spaces(ts.drop_first())
    } else {
        payload_of(ts.drop_first())
    }
}

/// Whether the first token carries the badge tag prefix.
pub open spec fn has_badge_tag(ts: Seq<Seq<char>>) -> bool {
    ts.len() > 0 && starts_with(ts[0], badges_prefix())
}

/// The raw, unmodified tag field: the whole first token, or empty.
pub open spec fn tag_source_of(ts: Seq<Seq<char>>) -> Seq<char> {
    if has_badge_tag(ts) {
        ts[0]
    } else {
        Seq::empty()
    }
}

/// The badge-list body: the first token with the tag prefix stripped and
/// everything from the color separator on discarded.
pub open spec fn badge_body_of(ts: Seq<Seq<char>>) -> Seq<char> {
    let rest = ts[0].skip(badges_prefix().len() as int);
    rest.take(find_seq(rest, color_sep()) as int)
}

/// The badges a token sequence decodes to: an empty list without the tag
/// prefix, else whatever the badge decoder makes of the body.
pub open spec fn badges_of(ts: Seq<Seq<char>>) -> Result<Seq<Badge>, ParseError> {
    if has_badge_tag(ts) {
        decode_of(badge_body_of(ts))
    } else {
        Ok(Seq::empty())
    }
}

/// Immutable outcome of parsing one raw line.
pub struct ParseResult {
    /// Chat text after the command keyword; empty if the keyword was absent.
    pub privmsg: String,
    /// The raw badge tag field as it stood in the line; empty if absent.
    pub badgestr: String,
    /// Decoded badges, in order of appearance.
    pub badges: Vec<Badge>,
}

/// Staged construction of a [`ParseResult`] from one raw line.
pub struct ParseResultBuilder {
    pub ogmsg: String,
    pub tokens: Vec<String>,
    pub privmsg: String,
    pub badgestr: String,
    pub badges: Vec<Badge>,
}

impl ParseResultBuilder {
    /// Tokenizes the line; payload, tag field and badges start empty.
    pub fn new(msg: &str) -> (r: ParseResultBuilder)
        ensures
            r.ogmsg@ == msg@,
            views_of(r.tokens@) == tokens_of(msg@),
            r.privmsg@ == Seq::<char>::empty(),
            r.badgestr@ == Seq::<char>::empty(),
            r.badges@ == Seq::<Badge>::empty(),
    {
        let parts = split_at_char(msg, ' ');
        let mut tokens: Vec<String> = Vec::new();
        let mut i: usize = 0;
        proof {
            assert(views_of(tokens@) =~= tokens_of(msg@).take(0));
        }
        while i < parts.len()
            invariant
                0 <= i <= parts.len(),
                views_of(parts@) == split_char(msg@, ' '),
                views_of(tokens@) == tokens_of(msg@).take(i as int),
            decreases parts.len() - i,
        {
            let t = crate::text::trim_str(parts[i].as_str());
            proof {
                assert(views_of(parts@)[i as int] == parts@[i as int]@);
                assert(tokens_of(msg@)[i as int] == trim_of(views_of(parts@)[i as int]));
                assert(views_of(tokens@.push(t)) =~= views_of(tokens@).push(t@));
                assert(tokens_of(msg@).take(i as int + 1) =~= tokens_of(msg@).take(
                    i as int,
                ).push(tokens_of(msg@)[i as int]));
            }
            tokens.push(t);
            i += 1;
        }
        proof {
            assert(tokens_of(msg@).take(parts@.len() as int) =~= tokens_of(msg@));
        }
        ParseResultBuilder {
            ogmsg: msg.to_owned(),
            tokens,
            privmsg: String::new(),
            badgestr: String::new(),
            badges: Vec::new(),
        }
    }

    /// Appends the payload: every token after the first occurrence of the
    /// command keyword, joined by single spaces, no trailing space.
    pub fn parse_privmsg(self) -> (r: ParseResultBuilder)
        ensures
            r.ogmsg == self.ogmsg,
            r.tokens == self.tokens,
            r.badgestr == self.badgestr,
            r.badges == self.badges,
            r.privmsg@ == self.privmsg@ + payload_of(views_of(self.tokens@)),
    {
        let mut b = self;
        let ghost orig = b;
        let ghost ts = views_of(b.tokens@);
        let ghost p0 = b.privmsg@;
        let mut found: bool = false;
        let ghost mut k: int = 0;
        let n = b.tokens.len();
        let mut index: usize = 0;
        proof {
            assert(ts.skip(0) =~= ts);
        }
        while index < n
            invariant
                0 <= index <= n,
                n == b.tokens.len(),
                b.ogmsg == orig.ogmsg,
                b.tokens == orig.tokens,
                b.badgestr == orig.badgestr,
                b.badges == orig.badges,
                ts == views_of(b.tokens@),
                !found ==> payload_of(ts) == payload_of(ts.skip(index as int)),
                !found ==> b.privmsg@ == p0,
                found ==> 0 <= k < index && ts[k] == privmsg_keyword(),
                found ==> payload_of(ts) == join_spaces(ts.skip(k + 1)),
                found && index < n ==> b.privmsg@ == (if k + 1 == index {
                    p0
                } else {
                    p0 + join_spaces(ts.subrange(k + 1, index as int)) + seq![' ']
                }),
                found && index == n ==> b.privmsg@ == p0 + join_spaces(
                    ts.subrange(k + 1, n as int),
                ),
            decreases n - index,
        {
            proof {
                assert(ts[index as int] == b.tokens@[index as int]@);
            }
            let is_kw = str_eq(b.tokens[index].as_str(), "PRIVMSG");
            if found {
                let tok = b.tokens[index].clone();
                b.privmsg.append(tok.as_str());
                proof {
                    let sub = ts.subrange(k + 1, index as int);
                    let sub2 = ts.subrange(k + 1, index as int + 1);
                    assert(sub2.drop_last() =~= sub);
                    assert(sub2.last() == ts[index as int]);
                    if k + 1 == index {
                        assert(sub2.len() == 1);
                        assert(join_spaces(sub2) == ts[index as int]);
                        assert(b.privmsg@ == p0 + join_spaces(sub2));
                    } else {
                        assert(join_spaces(sub2) == join_spaces(sub) + seq![' '] + ts[index as int]);
                        assert(b.privmsg@ == p0 + join_spaces(sub2));
                    }
                }
                if index + 1 < n {
                    b.privmsg.append(" ");
                    proof {
                        reveal_strlit(" ");
                        assert(" "@ =~= seq![' ']);
                    }
                }
            }
            if is_kw && !found {
                found = true;
                proof {
                    k = index as int;
                    assert(ts.skip(index as int)[0] == ts[index as int]);
                    assert(ts[index as int] == privmsg_keyword());
                    assert(ts.skip(index as int).drop_first() =~= ts.skip(index as int + 1));
                    assert(payload_of(ts.skip(index as int)) == join_spaces(
                        ts.skip(index as int + 1),
                    ));
                }
            } else if !found {
                proof {
                    assert(ts.skip(index as int)[0] == ts[index as int]);
                    assert(ts[index as int] != privmsg_keyword());
                    assert(ts.skip(index as int).drop_first() =~= ts.skip(index as int + 1));
                }
            }
            index += 1;
        }
        proof {
            if !found {
                assert(ts.skip(n as int) =~= Seq::<Seq<char>>::empty());
                assert(payload_of(ts) == Seq::<char>::empty());
                assert(p0 + Seq::<char>::empty() =~= p0);
            } else {
                assert(ts.subrange(k + 1, n as int) =~= ts.skip(k + 1));
            }
        }
        b
    }

    /// Decodes the badge tag field of the first token, if present: records
    /// the raw field, strips the prefix, discards from the color separator
    /// on, and appends the decoded badges; a malformed field fails the line.
    pub fn parse_badges(self) -> (r: Result<ParseResultBuilder, ParseError>)
        ensures
            (match r {
                Ok(b) => {
                    &&& b.ogmsg == self.ogmsg
                    &&& b.tokens == self.tokens
                    &&& b.privmsg == self.privmsg
                    &&& badges_of(views_of(self.tokens@)) is Ok
                    &&& b.badges@ == self.badges@ + badges_of(views_of(self.tokens@))->Ok_0
                    &&& b.badgestr@ == (if has_badge_tag(views_of(self.tokens@)) {
                        views_of(self.tokens@)[0]
                    } else {
                        self.badgestr@
                    })
                },
                Err(e) => badges_of(views_of(self.tokens@)) == Err::<Seq<Badge>, ParseError>(e),
            }),
    {
        let mut b = self;
        let ghost ts = views_of(b.tokens@);
        proof {
            if b.tokens@.len() > 0 {
                assert(ts[0] == b.tokens@[0]@);
            }
        }
        if b.tokens.len() > 0 && str_starts_with(b.tokens[0].as_str(), "@badges=") {
            b.badgestr = b.tokens[0].clone();
            let blen = b.badgestr.as_str().unicode_len();
            let plen = "@badges=".unicode_len();
            let stripped = b.badgestr.as_str().substring_char(plen, blen);
            let cut = find_seq_in(stripped, ";color=");
            let body = stripped.substring_char(0, cut);
            proof {
                assert(stripped@ =~= ts[0].skip(badges_prefix().len() as int));
                assert(body@ =~= badge_body_of(ts));
            }
            match decode_badges(body) {
                Ok(mut v) => {
                    b.badges.append(&mut v);
                    Ok(b)
                },
                Err(e) => Err(e),
            }
        } else {
            proof {
                assert(!has_badge_tag(ts));
                assert(b.badges@ + Seq::<Badge>::empty() =~= b.badges@);
            }
            Ok(b)
        }
    }

    /// Finalizes the accumulated fields into the immutable result.
    pub fn build(self) -> (r: ParseResult)
        ensures
            r.privmsg == self.privmsg,
            r.badgestr == self.badgestr,
            r.badges == self.badges,
    {
        ParseResult { privmsg: self.privmsg, badges: self.badges, badgestr: self.badgestr }
    }
}

/// Parses one raw line: the payload after the command keyword, the raw badge
/// tag field of the first token, and the decoded badges; the only failures
/// are the badge decoder's, and they fail the whole line.
pub fn parse(line: &str) -> (r: Result<ParseResult, ParseError>)
    ensures
        (match r {
            Ok(pr) => {
                &&& pr.privmsg@ == payload_of(tokens_of(line@))
                &&& pr.badgestr@ == tag_source_of(tokens_of(line@))
                &&& badges_of(tokens_of(line@)) == Ok::<Seq<Badge>, ParseError>(pr.badges@)
            },
            Err(e) => badges_of(tokens_of(line@)) == Err::<Seq<Badge>, ParseError>(e),
        }),
{
    let b = ParseResultBuilder::new(line).parse_privmsg();
    proof {
        assert(Seq::<char>::empty() + payload_of(tokens_of(line@)) =~= payload_of(
            tokens_of(line@),
        ));
    }
    match b.parse_badges() {
        Ok(done) => {
            proof {
                assert(Seq::<Badge>::empty() + badges_of(tokens_of(line@))->Ok_0 =~= badges_of(
                    tokens_of(line@),
                )->Ok_0);
            }
            Ok(done.build())
        },
        Err(e) => Err(e),
    }
}

proof fn lemma_payload_empty_tokens(ts: Seq<Seq<char>>)
    requires
        forall|i: int| 0 <= i < ts.len() ==> ts[i] != privmsg_keyword(),
    ensures
        payload_of(ts) == Seq::<char>::empty(),
    decreases ts.len(),
{
    if ts.len() > 0 {
        assert(ts[0] != privmsg_keyword());
        let t = ts.drop_first();
        assert forall|i: int| 0 <= i < t.len() implies t[i] != privmsg_keyword() by {
            assert(t[i] == ts[i + 1]);
        }
        lemma_payload_empty_tokens(t);
    }
}

/// Law: a line none of whose tokens is the command keyword parses to an
/// empty payload.
pub proof fn lemma_no_keyword_no_payload(line: Seq<char>)
    requires
        forall|i: int| 0 <= i < tokens_of(line).len() ==> tokens_of(line)[i] != privmsg_keyword(),
    ensures
        payload_of(tokens_of(line)) == Seq::<char>::empty(),
{
    lemma_payload_empty_tokens(tokens_of(line));
}

/// Law: a line whose first token does not start with the badge tag prefix
/// parses to an empty badge list and an empty tag source.
pub proof fn lemma_no_badge_tag(line: Seq<char>)
    requires
        tokens_of(line).len() == 0 || !starts_with(tokens_of(line)[0], badges_prefix()),
    ensures
        badges_of(tokens_of(line)) == Ok::<Seq<Badge>, ParseError>(Seq::<Badge>::empty()),
        tag_source_of(tokens_of(line)) == Seq::<char>::empty(),
{
}

} // verus!
