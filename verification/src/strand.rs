//! The strand of an annotated feature and the per-run strand configuration.

use vstd::prelude::*;

verus! {

broadcast use vstd::string::next_postcondition, vstd::string::axiom_spec_iter;

/// The strand of an annotated feature: one of `+`, `-`, `?`, `.`.
#[derive(Clone, Copy, Debug, PartialEq, Eq, Structural, Hash)]
pub enum Strand {
    Forward,
    Reverse,
    Irrelevant,
    Unknown,
}

/// The error returned when a strand token is none of `+`, `-`, `?`, `.`.
#[derive(Clone, Copy, Debug, PartialEq, Eq, Structural)]
pub struct ParseStrandError;

impl Strand {
    /// The single-character encoding of this strand.
    pub open spec fn spec_symbol(self) -> char {
        match self {
            Strand::Forward => '+',
            Strand::Reverse => '-',
            Strand::Unknown => '?',
            Strand::Irrelevant => '.',
        }
    }

    /// What parsing a token yields: each of the four one-character tokens
    /// maps to its strand; anything else is an error.
    pub open spec fn spec_parse(s: Seq<char>) -> Result<Strand, ParseStrandError> {
        if s == seq!['+'] {
            Ok(Strand::Forward)
        } else if s == seq!['-'] {
            Ok(Strand::Reverse)
        } else if s == seq!['?'] {
            Ok(Strand::Unknown)
        } else if s == seq!['.'] {
            Ok(Strand::Irrelevant)
        } else {
            Err(ParseStrandError)
        }
    }

    /// Prints this strand as its one-character token.
    pub fn symbol(self) -> (c: char)
        ensures
            c == self.spec_symbol(),
    {
        match self {
            Strand::Forward => '+',
            Strand::Reverse => '-',
            Strand::Unknown => '?',
            Strand::Irrelevant => '.',
        }
    }

    /// Parses a strand token: exactly `+`, `-`, `?` or `.`.
    pub fn parse(s: &str) -> (r: Result<Strand, ParseStrandError>)
        ensures
            r == Strand::spec_parse(s@),
    {
        let ghost view: Seq<char> = s@;
        let mut chars = s.chars();
        let c0 = chars.next();
        let c1 = chars.next();
        proof {
            if view.len() == 0 {
                assert(c0 is None);
            } else if view.len() == 1 {
                assert(c0 == Some(view[0]));
                assert(c1 is None);
            } else {
                assert(c0 == Some(view[0]));
                assert(c1 == Some(view[1]));
            }
        }
        match (c0, c1) {
            (Some('+'), None) => {
                proof {
                    assert(view =~= seq!['+']);
                }
                Ok(Strand::Forward)
            }
            (Some('-'), None) => {
                proof {
                    assert(view =~= seq!['-']);
                }
                Ok(Strand::Reverse)
            }
            (Some('?'), None) => {
                proof {
                    assert(view =~= seq!['?']);
                }
                Ok(Strand::Unknown)
            }
            (Some('.'), None) => {
                proof {
                    assert(view =~= seq!['.']);
                }
                Ok(Strand::Irrelevant)
            }
            _ => {
                proof {
                    assert(view != seq!['+'] && view != seq!['-'] && view != seq!['?'] && view
                        != seq!['.']) by {
                        if view.len() == 1 {
                            assert(c1 is None);
                        }
                    }
                }
                Err(ParseStrandError)
            }
        }
    }
}

impl Default for Strand {
    /// The default strand is `Irrelevant`.
    fn default() -> (s: Strand)
        ensures
            s == Strand::Irrelevant,
    {
        Strand::Irrelevant
    }
}

impl core::str::FromStr for Strand {
    type Err = ParseStrandError;

    fn from_str(s: &str) -> Result<Strand, ParseStrandError> {
        Strand::parse(s)
    }
}

/// Parsing a strand's printed token yields the strand back, for every
/// variant.
pub proof fn lemma_parse_symbol_round_trip(v: Strand)
    ensures
        Strand::spec_parse(seq![v.spec_symbol()]) == Ok::<Strand, ParseStrandError>(v),
{
    match v {
        Strand::Forward => {
            assert(seq![v.spec_symbol()] =~= seq!['+']);
        }
        Strand::Reverse => {
            assert(seq![v.spec_symbol()] =~= seq!['-']);
            assert(seq!['-'] != seq!['+']) by {
                assert(seq!['-'][0] == '-');
            }
        }
        Strand::Unknown => {
            assert(seq![v.spec_symbol()] =~= seq!['?']);
            assert(seq!['?'][0] == '?');
            assert(seq!['?'] != seq!['+'] && seq!['?'] != seq!['-']);
        }
        Strand::Irrelevant => {
            assert(seq![v.spec_symbol()] =~= seq!['.']);
            assert(seq!['.'][0] == '.');
            assert(seq!['.'] != seq!['+'] && seq!['.'] != seq!['-'] && seq!['.'] != seq!['?']);
        }
    }
}

/// Printing a successfully parsed token yields the token back: the
/// parse/print pair is an identity on `+`, `-`, `?`, `.`.
pub proof fn lemma_symbol_parse_round_trip(s: Seq<char>)
    requires
        Strand::spec_parse(s) is Ok,
    ensures
        seq![Strand::spec_parse(s)->Ok_0.spec_symbol()] == s,
{
    if s == seq!['+'] {
        assert(seq![Strand::spec_parse(s)->Ok_0.spec_symbol()] =~= s);
    } else if s == seq!['-'] {
        assert(seq![Strand::spec_parse(s)->Ok_0.spec_symbol()] =~= s);
    } else if s == seq!['?'] {
        assert(seq![Strand::spec_parse(s)->Ok_0.spec_symbol()] =~= s);
    } else {
        assert(seq![Strand::spec_parse(s)->Ok_0.spec_symbol()] =~= s);
    }
}

/// The per-run strand configuration: whether reads are counted without
/// regard to strand, on the same strand as the annotated feature, or on the
/// opposite one.
#[derive(Clone, Copy, Debug, PartialEq, Eq, Structural)]
pub enum StrandSpecification {
    Unstranded,
    Forward,
    Reverse,
}

} // verus!
