//! Helpers of the command-line program: comma-separated option values,
//! the label hash that seeds a sweep's cells, and the scripted policy that
//! answers prompts without a live model.

use vstd::prelude::*;
use vstd::string::StringSliceAdditionalSpecFns;

use crate::prompts::{find_from, strings_view};
use crate::text::{chars_of, contains, owned, str_contains, string_of, trim, trim_chars};

verus! {

/// The pieces of `s` between commas (one more than the number of commas).
pub open spec fn split_commas(s: Seq<char>) -> Seq<Seq<char>>
    decreases s.len(),
{
    if s.len() == 0 {
        seq![seq![]]
    } else {
        let rest = split_commas(s.drop_last());
        if s.last() == ',' {
            rest.push(seq![])
        } else {
            rest.update(rest.len() - 1, rest.last().push(s.last()))
        }
    }
}

/// The trimmed pieces that are not empty, in order.
pub open spec fn kept_items(pieces: Seq<Seq<char>>) -> Seq<Seq<char>>
    decreases pieces.len(),
{
    if pieces.len() == 0 {
        seq![]
    } else {
        let r = kept_items(pieces.drop_last());
        let t = trim(pieces.last());
        if t.len() > 0 {
            r.push(t)
        } else {
            r
        }
    }
}

pub proof fn lemma_split_commas_len(s: Seq<char>)
    ensures
        split_commas(s).len() >= 1,
    decreases s.len(),
{
    if s.len() > 0 {
        lemma_split_commas_len(s.drop_last());
    }
}

fn push_item(out: &mut Vec<String>, cur: &Vec<char>)
    ensures
        strings_view(final(out)@) == if trim(cur@).len() > 0 {
            strings_view(old(out)@).push(trim(cur@))
        } else {
            strings_view(old(out)@)
        },
{
    let t = trim_chars(cur);
    if t.len() > 0 {
        let ghost before = strings_view(out@);
        out.push(string_of(&t));
        assert(strings_view(out@) =~= before.push(trim(cur@)));
    }
}

/// Splits a comma-separated list into its trimmed, non-empty items.
pub fn split_csv(s: &str) -> (r: Vec<String>)
    ensures
        strings_view(r@) == kept_items(split_commas(s@)),
{
    let cs = chars_of(s);
    let mut out: Vec<String> = Vec::new();
    let mut cur: Vec<char> = Vec::new();
    let mut i: usize = 0;
    proof {
        assert(cs@.take(0) =~= Seq::<char>::empty());
    }
    while i < cs.len()
        invariant
            cs@ == s@,
            0 <= i <= cs@.len(),
            strings_view(out@) == kept_items(split_commas(cs@.take(i as int)).drop_last()),
            cur@ == split_commas(cs@.take(i as int)).last(),
        decreases cs@.len() - i,
    {
        let c = cs[i];
        let ghost pieces = split_commas(cs@.take(i as int));
        proof {
            lemma_split_commas_len(cs@.take(i as int));
            assert(cs@.take(i + 1).drop_last() =~= cs@.take(i as int));
            assert(cs@.take(i + 1).last() == c);
        }
        if c == ',' {
            push_item(&mut out, &cur);
            cur = Vec::new();
            proof {
                let next = pieces.push(seq![]);
                assert(next.drop_last() =~= pieces);
                assert(pieces =~= pieces.drop_last().push(pieces.last()));
            }
        } else {
            cur.push(c);
            proof {
                let next = pieces.update(pieces.len() - 1, pieces.last().push(c));
                assert(next.drop_last() =~= pieces.drop_last());
            }
        }
        i = i + 1;
    }
    proof {
        let pieces = split_commas(cs@.take(i as int));
        lemma_split_commas_len(cs@.take(i as int));
        assert(cs@.take(i as int) =~= s@);
        assert(pieces =~= pieces.drop_last().push(pieces.last()));
    }
    push_item(&mut out, &cur);
    out
}

/// The 64-bit FNV-1a hash of a byte string.
pub open spec fn fnv1a(bytes: Seq<u8>) -> u64
    decreases bytes.len(),
{
    if bytes.len() == 0 {
        0xcbf29ce484222325u64
    } else {
        (fnv1a(bytes.drop_last()) ^ (bytes.last() as u64)).wrapping_mul(0x100000001b3u64)
    }
}

/// A deterministic hash of a label (64-bit FNV-1a over its UTF-8 bytes).
pub fn label_hash(s: &str) -> (h: u64)
    ensures
        h == fnv1a(s.spec_bytes()),
{
    let b = s.as_bytes();
    let mut h: u64 = 0xcbf29ce484222325;
    let mut i: usize = 0;
    while i < b.len()
        invariant
            b@ == s.spec_bytes(),
            0 <= i <= b@.len(),
            h == fnv1a(b@.take(i as int)),
        decreases b@.len() - i,
    {
        assert(b@.take(i + 1).drop_last() =~= b@.take(i as int));
        h = (h ^ (b[i] as u64)).wrapping_mul(0x100000001b3);
        i = i + 1;
    }
    assert(b@.take(b@.len() as int) =~= b@);
    h
}

/// The first position at or after `i` where `t` occurs in `s`.
pub open spec fn first_at(s: Seq<char>, t: Seq<char>, i: int) -> Option<int>
    decreases s.len() + 1 - i,
{
    if i < 0 || i > s.len() {
        None
    } else if crate::text::occurs_at(s, t, i) {
        Some(i)
    } else {
        first_at(s, t, i + 1)
    }
}

pub open spec fn proposal_mark() -> Seq<char> {
    "## Proposed action\n"@
}

/// On a secretary prompt (one holding the proposed-action heading with
/// text after it), the first line after the heading, trimmed.
pub open spec fn echoed_line(p: Seq<char>) -> Option<Seq<char>> {
    match first_at(p, proposal_mark(), 0) {
        Some(i) => {
            let st = i + proposal_mark().len();
            if st < p.len() {
                Some(trim(p.subrange(st, find_from(p, '\n', st))))
            } else {
                None
            }
        },
        None => None,
    }
}

/// The scripted decision: it reads the strength of the breaking event in
/// the prompt. The historical trigger (assassination / ultimatum): A
/// declares war on C publicly, B mobilizes, C and D ally with each other.
/// A blockade of the straits: A mobilizes. A naval skirmish: A sends C a
/// public message. Everyone else, and every country without an event,
/// waits.
pub open spec fn scripted_decision(p: Seq<char>) -> Seq<char> {
    let archduke = contains(p, "assassinated"@) || contains(p, "ultimatum"@);
    let dardanelles = contains(p, "blockaded"@) || contains(p, "strait"@);
    let naval = contains(p, "naval skirmish"@);
    let a = contains(p, "Your country: Country A"@);
    if archduke {
        if a {
            "{\"action\": \"declare_war\", \"target\": 2, \"publicity\": \"public\"}"@
        } else if contains(p, "Your country: Country B"@) {
            "{\"action\": \"mobilize\"}"@
        } else if contains(p, "Your country: Country C"@) {
            "{\"action\": \"alliance\", \"target\": 3, \"publicity\": \"public\"}"@
        } else if contains(p, "Your country: Country D"@) {
            "{\"action\": \"alliance\", \"target\": 2, \"publicity\": \"public\"}"@
        } else {
            "{\"action\": \"wait\"}"@
        }
    } else if dardanelles {
        if a {
            "{\"action\": \"mobilize\"}"@
        } else {
            "{\"action\": \"wait\"}"@
        }
    } else if naval {
        if a {
            "{\"action\": \"message\", \"target\": 2, \"publicity\": \"public\"}"@
        } else {
            "{\"action\": \"wait\"}"@
        }
    } else {
        "{\"action\": \"wait\"}"@
    }
}

/// The scripted answer: a secretary prompt gets the proposed action echoed
/// back unchanged; a decision prompt gets [`scripted_decision`].
pub open spec fn scripted_reply(p: Seq<char>) -> Seq<char> {
    match echoed_line(p) {
        Some(l) => l,
        None => scripted_decision(p),
    }
}

fn first_at_exec(s: &Vec<char>, t: &Vec<char>) -> (r: Option<usize>)
    ensures
        match r {
            Some(i) => first_at(s@, t@, 0) == Some(i as int) && crate::text::occurs_at(
                s@,
                t@,
                i as int,
            ),
            None => first_at(s@, t@, 0) is None,
        },
{
    let mut i: usize = 0;
    loop
        invariant
            0 <= i <= s@.len(),
            first_at(s@, t@, 0) == first_at(s@, t@, i as int),
        decreases s@.len() - i,
    {
        if crate::text::occurs_at_exec(s, t, i) {
            return Some(i);
        }
        if i == s.len() {
            assert(first_at(s@, t@, i + 1) is None);
            return None;
        }
        i = i + 1;
    }
}

/// The scripted policy that answers prompts without a live model.
pub fn scripted_war_reply(prompt: &str) -> (r: String)
    ensures
        r@ == scripted_reply(prompt@),
{
    let p = chars_of(prompt);
    let mark = chars_of("## Proposed action\n");
    let plen = p.len();
    let mlen = mark.len();
    match first_at_exec(&p, &mark) {
        Some(i) => {
            assert(i + mlen <= plen);
            let st = i + mlen;
            if st < p.len() {
                let mut j = st;
                while j < p.len() && p[j] != '\n'
                    invariant
                        st <= j <= p@.len(),
                        find_from(p@, '\n', st as int) == find_from(p@, '\n', j as int),
                    decreases p@.len() - j,
                {
                    j = j + 1;
                }
                let mut line: Vec<char> = Vec::new();
                let mut k = st;
                while k < j
                    invariant
                        st <= k <= j <= p@.len(),
                        line@ == p@.subrange(st as int, k as int),
                    decreases j - k,
                {
                    line.push(p[k]);
                    k = k + 1;
                    assert(line@ =~= p@.subrange(st as int, k as int));
                }
                let t = trim_chars(&line);
                return string_of(&t);
            }
        },
        None => {},
    }
    let archduke = str_contains(prompt, "assassinated") || str_contains(prompt, "ultimatum");
    let dardanelles = str_contains(prompt, "blockaded") || str_contains(prompt, "strait");
    let naval = str_contains(prompt, "naval skirmish");
    let a = str_contains(prompt, "Your country: Country A");
    if archduke {
        if a {
            owned("{\"action\": \"declare_war\", \"target\": 2, \"publicity\": \"public\"}")
        } else if str_contains(prompt, "Your country: Country B") {
            owned("{\"action\": \"mobilize\"}")
        } else if str_contains(prompt, "Your country: Country C") {
            owned("{\"action\": \"alliance\", \"target\": 3, \"publicity\": \"public\"}")
        } else if str_contains(prompt, "Your country: Country D") {
            owned("{\"action\": \"alliance\", \"target\": 2, \"publicity\": \"public\"}")
        } else {
            owned("{\"action\": \"wait\"}")
        }
    } else if dardanelles {
        if a {
            owned("{\"action\": \"mobilize\"}")
        } else {
            owned("{\"action\": \"wait\"}")
        }
    } else if naval {
        if a {
            owned("{\"action\": \"message\", \"target\": 2, \"publicity\": \"public\"}")
        } else {
            owned("{\"action\": \"wait\"}")
        }
    } else {
        owned("{\"action\": \"wait\"}")
    }
}

} // verus!
