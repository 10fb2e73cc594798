//! The downstream subscription-control message parser: a flat
//! `{key: value, ...}`-shaped text is scanned into key/value pairs.
//! Whitespace, quotes and braces are stripped anywhere; `:` and `,` close
//! the pending key or pair. The scan is modeled exactly by a fold over
//! the characters, and lookups take the last pair with a given key, which
//! is what inserting into a map as the original scan went would keep.

use vstd::prelude::*;

verus! {

use vstd::string::StringExecFns;
use vstd::string::StrSliceExecFns;

/// Characters the scanner drops entirely.
pub open spec fn is_stripped(c: char) -> bool {
    c == ' ' || c == '\n' || c == '\t' || c == '"' || c == '{' || c == '}'
}

/// Characters that close the pending key (first) or pair (second).
pub open spec fn is_break(c: char) -> bool {
    c == ':' || c == ','
}

/// One scanner step over state (finished pairs, pending key, pending
/// text).
pub open spec fn pj_step(
    st: (Seq<(Seq<char>, Seq<char>)>, Seq<char>, Seq<char>),
    c: char,
) -> (Seq<(Seq<char>, Seq<char>)>, Seq<char>, Seq<char>) {
    if is_stripped(c) {
        st
    } else if is_break(c) {
        if st.1.len() == 0 {
            (st.0, st.2, Seq::<char>::empty())
        } else {
            (st.0.push((st.1, st.2)), Seq::<char>::empty(), Seq::<char>::empty())
        }
    } else {
        (st.0, st.1, st.2.push(c))
    }
}

/// The scanner state after consuming all of `s`.
pub open spec fn pj_scan(s: Seq<char>) -> (Seq<(Seq<char>, Seq<char>)>, Seq<char>, Seq<char>)
    decreases s.len(),
{
    if s.len() == 0 {
        (Seq::<(Seq<char>, Seq<char>)>::empty(), Seq::<char>::empty(), Seq::<char>::empty())
    } else {
        pj_step(pj_scan(s.drop_last()), s.last())
    }
}

/// The pairs a control message denotes: the finished pairs, plus the
/// trailing pair when both its key and value are non-empty.
pub open spec fn pj_pairs(s: Seq<char>) -> Seq<(Seq<char>, Seq<char>)> {
    let st = pj_scan(s);
    if st.1.len() > 0 && st.2.len() > 0 {
        st.0.push((st.1, st.2))
    } else {
        st.0
    }
}

/// The views of a vector of string pairs.
pub open spec fn pairs_view(v: Seq<(String, String)>) -> Seq<(Seq<char>, Seq<char>)> {
    v.map_values(|p: (String, String)| (p.0@, p.1@))
}

/// The value of the last pair carrying `key`, if any.
pub open spec fn lookup_spec(pairs: Seq<(Seq<char>, Seq<char>)>, key: Seq<char>) -> Option<
    Seq<char>,
>
    decreases pairs.len(),
{
    if pairs.len() == 0 {
        None
    } else if pairs.last().0 == key {
        Some(pairs.last().1)
    } else {
        lookup_spec(pairs.drop_last(), key)
    }
}

/// Parses a subscription-control message into its key/value pairs, in
/// the order the scan closes them.
pub fn parse_json(json_data: &str) -> (r: Vec<(String, String)>)
    ensures
        pairs_view(r@) == pj_pairs(json_data@),
{
    let n = json_data.unicode_len();
    let mut pairs: Vec<(String, String)> = Vec::new();
    let mut key = String::new();
    let mut tmp = String::new();
    let mut cs: usize = 0;
    let mut i: usize = 0;
    proof {
        assert(json_data@.take(0) =~= Seq::<char>::empty());
        assert(pairs_view(pairs@) =~= pj_scan(json_data@.take(0)).0);
        assert(json_data@.subrange(0, 0) =~= Seq::<char>::empty());
        assert(tmp@ + json_data@.subrange(0, 0) =~= Seq::<char>::empty());
    }
    while i < n
        invariant
            cs <= i <= n,
            n == json_data@.len(),
            pairs_view(pairs@) == pj_scan(json_data@.take(i as int)).0,
            key@ == pj_scan(json_data@.take(i as int)).1,
            tmp@ + json_data@.subrange(cs as int, i as int) == pj_scan(
                json_data@.take(i as int),
            ).2,
        decreases n - i,
    {
        let ghost st = pj_scan(json_data@.take(i as int));
        proof {
            assert(json_data@.take(i as int + 1).drop_last() =~= json_data@.take(i as int));
            assert(json_data@.take(i as int + 1).last() == json_data@[i as int]);
        }
        let c = json_data.get_char(i);
        if c == ' ' || c == '\n' || c == '\t' || c == '"' || c == '{' || c == '}' {
            tmp.append(json_data.substring_char(cs, i));
            cs = i + 1;
            proof {
                assert(json_data@.subrange(cs as int, i as int + 1) =~= Seq::<char>::empty());
                assert(tmp@ + json_data@.subrange(cs as int, i as int + 1) =~= st.2);
            }
        } else if c == ':' || c == ',' {
            tmp.append(json_data.substring_char(cs, i));
            cs = i + 1;
            proof {
                assert(tmp@ =~= st.2);
            }
            if key.as_str().is_empty() {
                key = tmp;
                tmp = String::new();
            } else {
                pairs.push((key, tmp));
                key = String::new();
                tmp = String::new();
                proof {
                    assert(pairs_view(pairs@) =~= pj_scan(json_data@.take(i as int + 1)).0);
                }
            }
            proof {
                assert(json_data@.subrange(cs as int, i as int + 1) =~= Seq::<char>::empty());
                assert(tmp@ + json_data@.subrange(cs as int, i as int + 1) =~= pj_scan(
                    json_data@.take(i as int + 1),
                ).2);
            }
        } else {
            proof {
                assert(json_data@.subrange(cs as int, i as int + 1) =~= json_data@.subrange(
                    cs as int,
                    i as int,
                ).push(json_data@[i as int]));
                assert(tmp@ + json_data@.subrange(cs as int, i as int + 1) =~= st.2.push(
                    json_data@[i as int],
                ));
            }
        }
        i = i + 1;
    }
    proof {
        assert(json_data@.take(n as int) =~= json_data@);
    }
    tmp.append(json_data.substring_char(cs, n));
    proof {
        assert(tmp@ =~= pj_scan(json_data@).2);
    }
    if !key.as_str().is_empty() && !tmp.as_str().is_empty() {
        pairs.push((key, tmp));
        proof {
            assert(pairs_view(pairs@) =~= pj_pairs(json_data@));
        }
    } else {
        proof {
            assert(pairs_view(pairs@) =~= pj_pairs(json_data@));
        }
    }
    pairs
}

/// Returns the value of the last pair with the given key, as a map built
/// by insertion in scan order would.
pub fn lookup_value(pairs: &Vec<(String, String)>, key: &String) -> (r: Option<String>)
    ensures
        match r {
            Some(v) => lookup_spec(pairs_view(pairs@), key@) == Some(v@),
            None => lookup_spec(pairs_view(pairs@), key@) is None,
        },
{
    let n = pairs.len();
    let mut i: usize = n;
    proof {
        assert(pairs@.take(n as int) =~= pairs@);
    }
    while i > 0
        invariant
            i <= n,
            n == pairs@.len(),
            lookup_spec(pairs_view(pairs@), key@) == lookup_spec(
                pairs_view(pairs@.take(i as int)),
                key@,
            ),
        decreases i,
    {
        i = i - 1;
        let ghost pv = pairs_view(pairs@.take(i as int + 1));
        proof {
            assert(pv.len() == i + 1);
            assert(pv.last() == (pairs@[i as int].0@, pairs@[i as int].1@));
            assert(pv.drop_last() =~= pairs_view(pairs@.take(i as int)));
        }
        let hit = pairs[i].0 == *key;
        if hit {
            let v = pairs[i].1.clone();
            return Some(v);
        }
    }
    proof {
        assert(pairs_view(pairs@.take(0)) =~= Seq::<(Seq<char>, Seq<char>)>::empty());
    }
    None
}

} // verus!
