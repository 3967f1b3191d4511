//! The declaration-list parser: reads `property: value;` pairs, as found in
//! an inline style attribute, into a mapping from lowercase property names to
//! value strings. It never fails: a pair that cannot be parsed is dropped and
//! the scan resynchronizes at the next `;`. A trailing pair without `;` is
//! still captured at the end of the input.

use vstd::prelude::*;
use vstd::string::*;
use crate::strmap::AttrMap;
use crate::text::{
    is_space_char, exec_is_space, lower_seq, lower_str, find_char, lemma_find_char_bounds,
    exec_find_char_from,
};

verus! {

/// The characters a property name or value is made of: letters, digits, and
/// `#`, `-`, `.`, `%`.
pub open spec fn is_word_char(c: char) -> bool {
    ||| ('a' <= c && c <= 'z')
    ||| ('A' <= c && c <= 'Z')
    ||| ('0' <= c && c <= '9')
    ||| c == '#'
    ||| c == '-'
    ||| c == '.'
    ||| c == '%'
}

pub fn exec_is_word_char(c: char) -> (r: bool)
    ensures
        r == is_word_char(c),
{
    ('a' <= c && c <= 'z') || ('A' <= c && c <= 'Z') || ('0' <= c && c <= '9') || c == '#'
        || c == '-' || c == '.' || c == '%'
}

/// The first position at or after `i` that does not hold whitespace.
pub open spec fn skip_space(s: Seq<char>, i: int) -> int
    decreases s.len() - i,
{
    if 0 <= i < s.len() && is_space_char(s[i]) {
        skip_space(s, i + 1)
    } else {
        i
    }
}

pub proof fn lemma_skip_space_bounds(s: Seq<char>, i: int)
    requires
        0 <= i <= s.len(),
    ensures
        i <= skip_space(s, i) <= s.len(),
    decreases s.len() - i,
{
    if i < s.len() && is_space_char(s[i]) {
        lemma_skip_space_bounds(s, i + 1);
    }
}

/// The first position at or after `i` that does not hold a word character.
pub open spec fn word_end(s: Seq<char>, i: int) -> int
    decreases s.len() - i,
{
    if 0 <= i < s.len() && is_word_char(s[i]) {
        word_end(s, i + 1)
    } else {
        i
    }
}

pub proof fn lemma_word_end_bounds(s: Seq<char>, i: int)
    requires
        0 <= i <= s.len(),
    ensures
        i <= word_end(s, i) <= s.len(),
    decreases s.len() - i,
{
    if i < s.len() && is_word_char(s[i]) {
        lemma_word_end_bounds(s, i + 1);
    }
}

/// The `property: value` pairs successfully read from `s[i..]`, in order.
///
/// Each round skips whitespace, reads a property name, expects `:`, skips
/// whitespace, reads a value, and then expects `;` after more whitespace. A
/// fully read pair is kept even when its `;` is missing; on any other
/// expectation failure the scan moves to the next `;` (dropping the broken
/// pair) or gives up at the end of the input.
pub open spec fn decl_pairs(s: Seq<char>, i: int) -> Seq<(Seq<char>, Seq<char>)>
    decreases s.len() - i,
    via decl_pairs_dec
{
    if i < 0 {
        Seq::empty()
    } else {
        let j0 = skip_space(s, i);
        if j0 >= s.len() {
            Seq::empty()
        } else {
            let p_end = word_end(s, j0);
            if p_end == j0 {
                let k = find_char(s, ';', j0);
                if k >= s.len() {
                    Seq::empty()
                } else {
                    decl_pairs(s, k + 1)
                }
            } else {
                let w1 = skip_space(s, p_end);
                if w1 >= s.len() || s[w1] != ':' {
                    let k = find_char(s, ';', w1);
                    if k >= s.len() {
                        Seq::empty()
                    } else {
                        decl_pairs(s, k + 1)
                    }
                } else {
                    let w2 = skip_space(s, w1 + 1);
                    let v_end = word_end(s, w2);
                    if v_end == w2 {
                        let k = find_char(s, ';', w2);
                        if k >= s.len() {
                            Seq::empty()
                        } else {
                            decl_pairs(s, k + 1)
                        }
                    } else {
                        let pair = (lower_seq(s.subrange(j0, p_end)), s.subrange(w2, v_end));
                        let w3 = skip_space(s, v_end);
                        if w3 >= s.len() {
                            seq![pair]
                        } else if s[w3] == ';' {
                            seq![pair] + decl_pairs(s, w3 + 1)
                        } else {
                            let k = find_char(s, ';', w3);
                            if k >= s.len() {
                                seq![pair]
                            } else {
                                seq![pair] + decl_pairs(s, k + 1)
                            }
                        }
                    }
                }
            }
        }
    }
}

#[via_fn]
proof fn decl_pairs_dec(s: Seq<char>, i: int) {
    if 0 <= i <= s.len() {
        lemma_skip_space_bounds(s, i);
        let j0 = skip_space(s, i);
        if j0 < s.len() {
            lemma_word_end_bounds(s, j0);
            lemma_find_char_bounds(s, ';', j0);
            let p_end = word_end(s, j0);
            lemma_skip_space_bounds(s, p_end);
            let w1 = skip_space(s, p_end);
            lemma_find_char_bounds(s, ';', w1);
            if w1 < s.len() && s[w1] == ':' {
                lemma_skip_space_bounds(s, w1 + 1);
                let w2 = skip_space(s, w1 + 1);
                lemma_word_end_bounds(s, w2);
                lemma_find_char_bounds(s, ';', w2);
                let v_end = word_end(s, w2);
                lemma_skip_space_bounds(s, v_end);
                let w3 = skip_space(s, v_end);
                if w3 <= s.len() {
                    lemma_find_char_bounds(s, ';', w3);
                }
            }
        }
    }
}

/// The mapping described by a sequence of pairs: a later pair overrides an
/// earlier one with the same property name.
pub open spec fn map_of_pairs(ps: Seq<(Seq<char>, Seq<char>)>) -> Map<Seq<char>, Seq<char>>
    decreases ps.len(),
{
    if ps.len() == 0 {
        Map::empty()
    } else {
        map_of_pairs(ps.drop_last()).insert(ps.last().0, ps.last().1)
    }
}

/// The mapping a declaration list describes.
pub open spec fn decl_map(s: Seq<char>) -> Map<Seq<char>, Seq<char>> {
    map_of_pairs(decl_pairs(s, 0))
}

/// The first non-whitespace position at or after `from`.
fn exec_skip_space(s: &str, from: usize) -> (j: usize)
    requires
        from <= s@.len(),
    ensures
        j == skip_space(s@, from as int),
        from <= j <= s@.len(),
{
    let n = s.unicode_len();
    let mut i: usize = from;
    while i < n && exec_is_space(s.get_char(i))
        invariant
            from <= i <= n,
            n == s@.len(),
            skip_space(s@, from as int) == skip_space(s@, i as int),
        decreases n - i,
    {
        i = i + 1;
    }
    i
}

/// The first position at or after `from` that ends a word.
fn exec_word_end(s: &str, from: usize) -> (j: usize)
    requires
        from <= s@.len(),
    ensures
        j == word_end(s@, from as int),
        from <= j <= s@.len(),
{
    let n = s.unicode_len();
    let mut i: usize = from;
    while i < n && exec_is_word_char(s.get_char(i))
        invariant
            from <= i <= n,
            n == s@.len(),
            word_end(s@, from as int) == word_end(s@, i as int),
        decreases n - i,
    {
        i = i + 1;
    }
    i
}

/// Parses a declaration list into its mapping: every `property: value` pair
/// that reads cleanly is bound (later pairs win), malformed fragments are
/// dropped at the next `;`, and the scan never fails.
pub fn parse_declarations(s: &str) -> (r: AttrMap)
    ensures
        r@ == decl_map(s@),
{
    let ghost sv = s@;
    let n = s.unicode_len();
    let mut attrs = AttrMap::new();
    let ghost mut done: Seq<(Seq<char>, Seq<char>)> = Seq::empty();
    let mut i: usize = 0;
    proof {
        assert(map_of_pairs(done) =~= Map::<Seq<char>, Seq<char>>::empty());
        assert(done + decl_pairs(sv, 0) =~= decl_pairs(sv, 0));
    }
    while i < n
        invariant
            i <= n,
            n == sv.len(),
            sv == s@,
            decl_pairs(sv, 0) == done + decl_pairs(sv, i as int),
            attrs@ == map_of_pairs(done),
        decreases n - i,
    {
        let ghost i0 = i as int;
        let j0 = exec_skip_space(s, i);
        if j0 >= n {
            i = n;
            proof {
                assert(decl_pairs(sv, i0) =~= Seq::<(Seq<char>, Seq<char>)>::empty());
                assert(decl_pairs(sv, n as int) =~= Seq::<(Seq<char>, Seq<char>)>::empty());
            }
        } else {
            let p_end = exec_word_end(s, j0);
            if p_end == j0 {
                let k = exec_find_char_from(s, ';', j0);
                if k >= n {
                    i = n;
                    proof {
                        assert(decl_pairs(sv, i0) =~= Seq::<(Seq<char>, Seq<char>)>::empty());
                        assert(decl_pairs(sv, n as int) =~= Seq::<(Seq<char>, Seq<char>)>::empty());
                    }
                } else {
                    i = k + 1;
                    proof {
                        assert(decl_pairs(sv, i0) == decl_pairs(sv, i as int));
                    }
                }
            } else {
                let w1 = exec_skip_space(s, p_end);
                if w1 >= n || s.get_char(w1) != ':' {
                    let k = exec_find_char_from(s, ';', w1);
                    if k >= n {
                        i = n;
                        proof {
                            assert(decl_pairs(sv, i0) =~= Seq::<(Seq<char>, Seq<char>)>::empty());
                            assert(decl_pairs(sv, n as int) =~= Seq::<(
                                Seq<char>,
                                Seq<char>,
                            )>::empty());
                        }
                    } else {
                        i = k + 1;
                        proof {
                            assert(decl_pairs(sv, i0) == decl_pairs(sv, i as int));
                        }
                    }
                } else {
                    let w2 = exec_skip_space(s, w1 + 1);
                    let v_end = exec_word_end(s, w2);
                    if v_end == w2 {
                        let k = exec_find_char_from(s, ';', w2);
                        if k >= n {
                            i = n;
                            proof {
                                assert(decl_pairs(sv, i0) =~= Seq::<(
                                    Seq<char>,
                                    Seq<char>,
                                )>::empty());
                                assert(decl_pairs(sv, n as int) =~= Seq::<(
                                    Seq<char>,
                                    Seq<char>,
                                )>::empty());
                            }
                        } else {
                            i = k + 1;
                            proof {
                                assert(decl_pairs(sv, i0) == decl_pairs(sv, i as int));
                            }
                        }
                    } else {
                        let prop = lower_str(s.substring_char(j0, p_end));
                        let val = s.substring_char(w2, v_end).to_owned();
                        let ghost pair = (prop@, val@);
                        let ghost done0 = done;
                        attrs.insert(prop, val);
                        proof {
                            done = done0.push(pair);
                            assert(done.drop_last() =~= done0);
                            assert(attrs@ == map_of_pairs(done));
                        }
                        let w3 = exec_skip_space(s, v_end);
                        if w3 >= n {
                            i = n;
                            proof {
                                assert(decl_pairs(sv, i0) == seq![pair]);
                                assert(decl_pairs(sv, n as int) =~= Seq::<(
                                    Seq<char>,
                                    Seq<char>,
                                )>::empty());
                                assert(done0 + seq![pair] =~= done);
                                assert(done + decl_pairs(sv, n as int) =~= done0 + decl_pairs(
                                    sv,
                                    i0,
                                ));
                            }
                        } else if s.get_char(w3) == ';' {
                            i = w3 + 1;
                            proof {
                                assert(decl_pairs(sv, i0) == seq![pair] + decl_pairs(
                                    sv,
                                    i as int,
                                ));
                                assert(done0 + (seq![pair] + decl_pairs(sv, i as int)) =~= done
                                    + decl_pairs(sv, i as int));
                            }
                        } else {
                            let k = exec_find_char_from(s, ';', w3);
                            if k >= n {
                                i = n;
                                proof {
                                    assert(decl_pairs(sv, i0) == seq![pair]);
                                    assert(decl_pairs(sv, n as int) =~= Seq::<(
                                        Seq<char>,
                                        Seq<char>,
                                    )>::empty());
                                    assert(done0 + seq![pair] =~= done);
                                    assert(done + decl_pairs(sv, n as int) =~= done0
                                        + decl_pairs(sv, i0));
                                }
                            } else {
                                i = k + 1;
                                proof {
                                    assert(decl_pairs(sv, i0) == seq![pair] + decl_pairs(
                                        sv,
                                        i as int,
                                    ));
                                    assert(done0 + (seq![pair] + decl_pairs(sv, i as int)) =~= done
                                        + decl_pairs(sv, i as int));
                                }
                            }
                        }
                    }
                }
            }
        }
    }
    proof {
        assert(decl_pairs(sv, n as int) =~= Seq::<(Seq<char>, Seq<char>)>::empty());
        assert(done + decl_pairs(sv, n as int) =~= done);
    }
    attrs
}

} // verus!
