//! The attribute/tag splitter: turns the raw text captured between `<` and
//! `>` into a lowercase tag name plus a key/value attribute mapping.
//!
//! The text is split on whitespace into tokens, except that whitespace inside
//! a quoted span (`'...'` or `"..."`) does not end a token. The first token is
//! the tag name; each further token is an attribute: split at the first `=`
//! into key and value (the key lowercased, one pair of surrounding quote
//! characters stripped from the value), or, with no `=`, a boolean attribute
//! bound to the empty value. A later attribute token overrides an earlier one
//! with the same key.

use vstd::prelude::*;
use vstd::string::*;
use crate::strmap::AttrMap;
use crate::text::{is_space_char, lower_seq, lower_str, push_char, exec_is_space, find_char, lemma_find_char_bounds, exec_find_char};

verus! {

/// The tokens contributed by `s[i..]` when `cur` has been gathered so far and
/// `quote` is the pending quote character, if any.
pub open spec fn tokenize_from(
    s: Seq<char>,
    i: int,
    quote: Option<char>,
    cur: Seq<char>,
) -> Seq<Seq<char>>
    decreases s.len() - i,
{
    if i >= s.len() {
        if cur.len() > 0 {
            seq![cur]
        } else {
            Seq::empty()
        }
    } else {
        let c = s[i];
        match quote {
            Some(q) => tokenize_from(
                s,
                i + 1,
                if c == q {
                    None::<char>
                } else {
                    quote
                },
                cur.push(c),
            ),
            None => {
                if is_space_char(c) {
                    if cur.len() > 0 {
                        seq![cur] + tokenize_from(s, i + 1, None::<char>, Seq::empty())
                    } else {
                        tokenize_from(s, i + 1, None::<char>, Seq::empty())
                    }
                } else if c == '\'' || c == '"' {
                    tokenize_from(s, i + 1, Some(c), cur.push(c))
                } else {
                    tokenize_from(s, i + 1, quote, cur.push(c))
                }
            },
        }
    }
}

/// The quote-aware whitespace tokenization of a tag body.
pub open spec fn tokenize(s: Seq<char>) -> Seq<Seq<char>> {
    tokenize_from(s, 0, None::<char>, Seq::empty())
}

/// Drops one pair of surrounding quote characters from an attribute value,
/// provided the value is longer than two characters and opens with a quote.
pub open spec fn strip_quotes(v: Seq<char>) -> Seq<char> {
    if v.len() > 2 && (v[0] == '\'' || v[0] == '"') {
        v.subrange(1, v.len() - 1)
    } else {
        v
    }
}

/// The key an attribute token binds: the part before the first `=` (the whole
/// token when there is none), lowercased.
pub open spec fn attr_key(t: Seq<char>) -> Seq<char> {
    lower_seq(t.take(find_char(t, '=', 0)))
}

/// The value an attribute token binds: the part after the first `=` with
/// surrounding quotes stripped, or the empty value when there is no `=`.
pub open spec fn attr_val(t: Seq<char>) -> Seq<char> {
    if find_char(t, '=', 0) >= t.len() {
        Seq::empty()
    } else {
        strip_quotes(t.skip(find_char(t, '=', 0) + 1))
    }
}

/// The attribute mapping contributed by every token after the first; a later
/// token overrides an earlier one with the same key.
pub open spec fn attrs_of_tokens(toks: Seq<Seq<char>>) -> Map<Seq<char>, Seq<char>>
    decreases toks.len(),
{
    if toks.len() <= 1 {
        Map::empty()
    } else {
        attrs_of_tokens(toks.drop_last()).insert(attr_key(toks.last()), attr_val(toks.last()))
    }
}

/// The tag name: the first token, lowercased; empty when there are no tokens.
pub open spec fn tag_of_tokens(toks: Seq<Seq<char>>) -> Seq<char> {
    if toks.len() == 0 {
        Seq::empty()
    } else {
        lower_seq(toks[0])
    }
}

/// The tag name a tag body yields.
pub open spec fn spec_tag_name(s: Seq<char>) -> Seq<char> {
    tag_of_tokens(tokenize(s))
}

/// The attribute mapping a tag body yields.
pub open spec fn spec_attrs(s: Seq<char>) -> Map<Seq<char>, Seq<char>> {
    attrs_of_tokens(tokenize(s))
}

/// Splits a tag body into its lowercase tag name and its attribute mapping.
pub fn get_attributes(text: &str) -> (r: (String, AttrMap))
    ensures
        r.0@ == spec_tag_name(text@),
        r.1@ == spec_attrs(text@),
{
    let ghost s = text@;
    let n = text.unicode_len();
    let mut toks: Vec<String> = Vec::new();
    let mut cur = String::new();
    let mut quote: Option<char> = None;
    let mut i: usize = 0;
    proof {
        assert(toks.deep_view() =~= Seq::<Seq<char>>::empty());
        assert(Seq::<Seq<char>>::empty() + tokenize_from(s, 0, None::<char>, Seq::empty())
            =~= tokenize(s));
    }
    while i < n
        invariant
            i <= n,
            n == s.len(),
            s == text@,
            tokenize(s) == toks.deep_view() + tokenize_from(s, i as int, quote, cur@),
        decreases n - i,
    {
        let ghost toks0 = toks.deep_view();
        let ghost cur0 = cur@;
        let ghost q0 = quote;
        let c = text.get_char(i);
        match quote {
            Some(q) => {
                push_char(&mut cur, c);
                if c == q {
                    quote = None;
                }
                proof {
                    assert(tokenize_from(s, i as int, q0, cur0) == tokenize_from(
                        s,
                        i + 1,
                        quote,
                        cur@,
                    ));
                }
            },
            None => {
                if exec_is_space(c) {
                    if cur.as_str().unicode_len() > 0 {
                        let ghost rest = tokenize_from(s, i + 1, None::<char>, Seq::empty());
                        toks.push(cur);
                        cur = String::new();
                        proof {
                            assert(toks.deep_view() =~= toks0.push(cur0));
                            assert(toks0 + (seq![cur0] + rest) =~= toks0.push(cur0) + rest);
                            assert(tokenize_from(s, i as int, q0, cur0) == seq![cur0] + rest);
                        }
                    } else {
                        proof {
                            assert(cur0 =~= Seq::<char>::empty());
                            assert(tokenize_from(s, i as int, q0, cur0) == tokenize_from(
                                s,
                                i + 1,
                                None::<char>,
                                Seq::empty(),
                            ));
                            assert(cur@ =~= Seq::<char>::empty());
                        }
                    }
                } else if c == '\'' || c == '"' {
                    quote = Some(c);
                    push_char(&mut cur, c);
                    proof {
                        assert(tokenize_from(s, i as int, q0, cur0) == tokenize_from(
                            s,
                            i + 1,
                            quote,
                            cur@,
                        ));
                    }
                } else {
                    push_char(&mut cur, c);
                    proof {
                        assert(tokenize_from(s, i as int, q0, cur0) == tokenize_from(
                            s,
                            i + 1,
                            quote,
                            cur@,
                        ));
                    }
                }
            },
        }
        i = i + 1;
    }
    if cur.as_str().unicode_len() > 0 {
        let ghost toks0 = toks.deep_view();
        let ghost cur0 = cur@;
        toks.push(cur);
        proof {
            assert(toks.deep_view() =~= toks0.push(cur0));
            assert(toks0.push(cur0) =~= toks0 + seq![cur0]);
        }
    } else {
        proof {
            assert(toks.deep_view() + Seq::<Seq<char>>::empty() =~= toks.deep_view());
        }
    }
    let ghost tv = toks.deep_view();
    proof {
        assert(tv == tokenize(s));
    }

    let tag = if toks.len() == 0 {
        proof {
            assert(tv.len() == 0);
        }
        String::new()
    } else {
        proof {
            assert(tv[0] == toks@[0]@);
        }
        lower_str(toks[0].as_str())
    };

    let mut attrs = AttrMap::new();
    let mut j: usize = 1;
    proof {
        if toks.len() >= 1 {
            assert(attrs_of_tokens(tv.take(1)) =~= Map::<Seq<char>, Seq<char>>::empty());
        }
    }
    while j < toks.len()
        invariant
            1 <= j,
            j <= toks.len() || (toks.len() == 0 && j == 1),
            tv == toks.deep_view(),
            tv == tokenize(s),
            s == text@,
            attrs@ == attrs_of_tokens(tv.take(if j <= tv.len() { j as int } else { 0 })),
        decreases toks.len() - j,
    {
        let ghost tj = tv[j as int];
        proof {
            assert(tj == toks@[j as int]@);
            lemma_find_char_bounds(tj, '=', 0);
        }
        let t: &String = &toks[j];
        let tn = t.as_str().unicode_len();
        let k = exec_find_char(t.as_str(), '=');
        let key: String;
        let val: String;
        if k < tn {
            key = lower_str(t.as_str().substring_char(0, k));
            let raw = t.as_str().substring_char(k + 1, tn);
            proof {
                assert(raw@ =~= tj.skip(k + 1));
            }
            let rn = raw.unicode_len();
            if rn > 2 && (raw.get_char(0) == '\'' || raw.get_char(0) == '"') {
                val = raw.substring_char(1, rn - 1).to_owned();
            } else {
                val = raw.to_owned();
            }
            proof {
                assert(key@ == attr_key(tj));
                assert(val@ == attr_val(tj));
            }
        } else {
            proof {
                assert(tj.take(find_char(tj, '=', 0)) =~= tj);
            }
            key = lower_str(t.as_str());
            val = String::new();
            proof {
                assert(key@ == attr_key(tj));
                assert(val@ =~= attr_val(tj));
            }
        }
        attrs.insert(key, val);
        j = j + 1;
        proof {
            assert(tv.take(j as int).drop_last() =~= tv.take(j - 1));
            assert(tv.take(j as int).last() == tj);
            assert(attrs@ == attrs_of_tokens(tv.take(j as int)));
        }
    }
    proof {
        if tv.len() == 0 {
            assert(attrs@ =~= attrs_of_tokens(tv));
        } else {
            assert(tv.take(tv.len() as int) =~= tv);
        }
    }
    (tag, attrs)
}

} // verus!
