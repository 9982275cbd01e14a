//! The persisted snapshot's text format: one escaped, newline-terminated
//! field per line, three lines per item, in order.  The host only stores and
//! reloads the text; encoding and decoding round-trip exactly.

use vstd::prelude::*;
use crate::item::{views_of, Item, ItemV};
use crate::strutil::{chars_to_string, str_chars, token_views};

verus! {

/// One character of a field, escaped: backslash and newline get a
/// two-character escape, everything else stands for itself.
pub open spec fn esc_char(c: char) -> Seq<char> {
    if c == '\\' {
        seq!['\\', '\\']
    } else if c == '\n' {
        seq!['\\', 'n']
    } else {
        seq![c]
    }
}

/// A field escaped character by character; the result holds no newline.
pub open spec fn esc(s: Seq<char>) -> Seq<char>
    decreases s.len(),
{
    if s.len() == 0 {
        Seq::empty()
    } else {
        esc_char(s[0]) + esc(s.drop_first())
    }
}

proof fn lemma_esc_concat(a: Seq<char>, b: Seq<char>)
    ensures
        esc(a + b) == esc(a) + esc(b),
    decreases a.len(),
{
    if a.len() == 0 {
        assert(a + b =~= b);
        assert(esc(a) + esc(b) =~= esc(b));
    } else {
        assert((a + b)[0] == a[0]);
        assert((a + b).drop_first() =~= a.drop_first() + b);
        lemma_esc_concat(a.drop_first(), b);
        assert(esc_char(a[0]) + (esc(a.drop_first()) + esc(b)) =~= (esc_char(a[0]) + esc(
            a.drop_first(),
        )) + esc(b));
    }
}

/// The record of one item: its three fields, each escaped and
/// newline-terminated.
pub open spec fn enc_item(it: ItemV) -> Seq<char> {
    esc(it.label) + seq!['\n'] + esc(it.value) + seq!['\n'] + esc(it.haystack) + seq!['\n']
}

/// The whole snapshot text.
pub open spec fn enc_items(items: Seq<ItemV>) -> Seq<char>
    decreases items.len(),
{
    if items.len() == 0 {
        Seq::empty()
    } else {
        enc_item(items[0]) + enc_items(items.drop_first())
    }
}

proof fn lemma_enc_items_push(items: Seq<ItemV>, it: ItemV)
    ensures
        enc_items(items.push(it)) == enc_items(items) + enc_item(it),
    decreases items.len(),
{
    if items.len() == 0 {
        assert(items.push(it)[0] == it);
        assert(items.push(it).drop_first() =~= Seq::<ItemV>::empty());
        assert(enc_item(it) + enc_items(Seq::<ItemV>::empty()) =~= enc_item(it));
        assert(enc_items(Seq::<ItemV>::empty()) + enc_item(it) =~= enc_item(it));
    } else {
        assert(items.push(it)[0] == items[0]);
        assert(items.push(it).drop_first() =~= items.drop_first().push(it));
        lemma_enc_items_push(items.drop_first(), it);
        assert(enc_item(items[0]) + (enc_items(items.drop_first()) + enc_item(it)) =~= (enc_item(
            items[0],
        ) + enc_items(items.drop_first())) + enc_item(it));
    }
}

/// Appends the escaped form of `s` to `out`.
#[verifier::loop_isolation(false)]
fn append_escaped(out: &mut Vec<char>, s: &Vec<char>)
    ensures
        final(out)@ == old(out)@ + esc(s@),
{
    let mut i: usize = 0;
    proof {
        assert(esc(s@.subrange(0, 0)) =~= Seq::<char>::empty());
        assert(out@ + esc(s@.subrange(0, 0)) =~= out@);
    }
    while i < s.len()
        invariant
            i <= s.len(),
            out@ == old(out)@ + esc(s@.subrange(0, i as int)),
        decreases s.len() - i,
    {
        proof {
            assert(s@.subrange(0, i + 1 as int) =~= s@.subrange(0, i as int) + seq![
                s@[i as int],
            ]);
            lemma_esc_concat(s@.subrange(0, i as int), seq![s@[i as int]]);
            let one = seq![s@[i as int]];
            assert(one.len() == 1);
            assert(one[0] == s@[i as int]);
            assert(one.drop_first() =~= Seq::<char>::empty());
            assert(esc(one) == esc_char(one[0]) + esc(one.drop_first()));
            assert(esc(Seq::<char>::empty()) =~= Seq::<char>::empty());
            assert(esc(one) =~= esc_char(s@[i as int]));
        }
        let c = s[i];
        if c == '\\' {
            out.push('\\');
            out.push('\\');
        } else if c == '\n' {
            out.push('\\');
            out.push('n');
        } else {
            out.push(c);
        }
        proof {
            assert(out@ =~= old(out)@ + esc(s@.subrange(0, i + 1 as int)));
        }
        i = i + 1;
    }
    proof {
        assert(s@.subrange(0, s@.len() as int) =~= s@);
    }
}

/// Encodes the item list as the snapshot text.
#[verifier::loop_isolation(false)]
pub fn encode_cache(items: &Vec<Item>) -> (r: String)
    ensures
        r@ == enc_items(views_of(items@)),
{
    let mut out: Vec<char> = Vec::new();
    let mut i: usize = 0;
    proof {
        assert(views_of(items@.subrange(0, 0)) =~= Seq::<ItemV>::empty());
        assert(out@ =~= enc_items(views_of(items@.subrange(0, 0))));
    }
    while i < items.len()
        invariant
            i <= items.len(),
            out@ == enc_items(views_of(items@.subrange(0, i as int))),
        decreases items.len() - i,
    {
        let ghost before = out@;
        let ghost itv = items@[i as int]@;
        let lc = str_chars(items[i].label.as_str());
        append_escaped(&mut out, &lc);
        out.push('\n');
        let vc = str_chars(items[i].value.as_str());
        append_escaped(&mut out, &vc);
        out.push('\n');
        let hc = str_chars(items[i].haystack.as_str());
        append_escaped(&mut out, &hc);
        out.push('\n');
        proof {
            assert(out@ =~= before + enc_item(itv));
            lemma_enc_items_push(views_of(items@.subrange(0, i as int)), itv);
            assert(views_of(items@.subrange(0, i + 1 as int)) =~= views_of(
                items@.subrange(0, i as int),
            ).push(itv));
        }
        i = i + 1;
    }
    proof {
        assert(items@.subrange(0, items@.len() as int) =~= items@);
    }
    chars_to_string(&out)
}

/// Splits the snapshot text into unescaped fields, `None` when malformed:
/// a stray escape, or text after the last terminator.
pub open spec fn scan_fields(cur: Seq<char>, s: Seq<char>) -> Option<Seq<Seq<char>>>
    decreases s.len(),
{
    if s.len() == 0 {
        if cur.len() == 0 {
            Some(Seq::empty())
        } else {
            None
        }
    } else if s[0] == '\n' {
        match scan_fields(Seq::empty(), s.drop_first()) {
            Some(fs) => Some(seq![cur] + fs),
            None => None,
        }
    } else if s[0] == '\\' {
        if s.len() >= 2 && s[1] == '\\' {
            scan_fields(cur.push('\\'), s.subrange(2, s.len() as int))
        } else if s.len() >= 2 && s[1] == 'n' {
            scan_fields(cur.push('\n'), s.subrange(2, s.len() as int))
        } else {
            None
        }
    } else {
        scan_fields(cur.push(s[0]), s.drop_first())
    }
}

/// Groups the fields three by three into items, `None` when their number is
/// not a multiple of three.
pub open spec fn group_fields(fs: Seq<Seq<char>>) -> Option<Seq<ItemV>>
    decreases fs.len(),
{
    if fs.len() == 0 {
        Some(Seq::empty())
    } else if fs.len() < 3 {
        None
    } else {
        match group_fields(fs.subrange(3, fs.len() as int)) {
            Some(items) => Some(
                seq![ItemV { label: fs[0], value: fs[1], haystack: fs[2] }] + items,
            ),
            None => None,
        }
    }
}

/// The items a snapshot text decodes to, if it is well formed.
pub open spec fn decoded_items(s: Seq<char>) -> Option<Seq<ItemV>> {
    match scan_fields(Seq::empty(), s) {
        Some(fs) => group_fields(fs),
        None => None,
    }
}

/// Decodes a snapshot text back into items; `None` on any malformed input,
/// which the host treats as a missing cache.
#[verifier::loop_isolation(false)]
pub fn decode_cache(s: &str) -> (r: Option<Vec<Item>>)
    ensures
        match decoded_items(s@) {
            Some(itvs) => r matches Some(v) && views_of(v@) == itvs,
            None => r is None,
        },
{
    let cs = str_chars(s);
    let mut fields: Vec<Vec<char>> = Vec::new();
    let mut cur: Vec<char> = Vec::new();
    let mut i: usize = 0;
    proof {
        assert(cs@.subrange(0, cs@.len() as int) =~= cs@);
        assert(token_views(fields@) =~= Seq::<Seq<char>>::empty());
        if scan_fields(cur@, cs@) is Some {
            let fs = choose|fs: Seq<Seq<char>>| scan_fields(cur@, cs@) == Some(fs);
            assert(token_views(fields@) + fs =~= fs);
        }
    }
    while i < cs.len()
        invariant
            i <= cs.len(),
            scan_fields(Seq::empty(), cs@) == (match scan_fields(
                cur@,
                cs@.subrange(i as int, cs@.len() as int),
            ) {
                Some(fs) => Some(token_views(fields@) + fs),
                None => None::<Seq<Seq<char>>>,
            }),
        decreases cs.len() - i,
    {
        let ghost suf = cs@.subrange(i as int, cs@.len() as int);
        proof {
            assert(suf[0] == cs@[i as int]);
            assert(suf.drop_first() =~= cs@.subrange(i + 1, cs@.len() as int));
        }
        let c = cs[i];
        if c == '\n' {
            let ghost old_fields = token_views(fields@);
            let ghost old_cur = cur@;
            fields.push(cur);
            cur = Vec::new();
            proof {
                assert(cur@ =~= Seq::<char>::empty());
                assert(token_views(fields@) =~= old_fields.push(old_cur));
                let nsuf = cs@.subrange(i + 1, cs@.len() as int);
                if scan_fields(Seq::<char>::empty(), nsuf) is Some {
                    let fs = choose|fs: Seq<Seq<char>>|
                        scan_fields(Seq::<char>::empty(), nsuf) == Some(fs);
                    assert(old_fields + (seq![old_cur] + fs) =~= token_views(fields@) + fs);
                }
            }
            i = i + 1;
        } else if c == '\\' {
            if i + 1 >= cs.len() {
                proof {
                    assert(suf.len() == 1);
                    assert(scan_fields(cur@, suf) is None);
                }
                return None;
            }
            let c2 = cs[i + 1];
            proof {
                assert(suf.len() >= 2);
                assert(suf[1] == cs@[i + 1]);
                assert(suf.subrange(2, suf.len() as int) =~= cs@.subrange(
                    i + 2,
                    cs@.len() as int,
                ));
            }
            if c2 == '\\' {
                cur.push('\\');
            } else if c2 == 'n' {
                cur.push('\n');
            } else {
                proof {
                    assert(scan_fields(cur@, suf) is None);
                }
                return None;
            }
            i = i + 2;
        } else {
            cur.push(c);
            i = i + 1;
        }
    }
    proof {
        assert(cs@.subrange(i as int, cs@.len() as int) =~= Seq::<char>::empty());
    }
    if cur.len() > 0 {
        return None;
    }
    proof {
        assert(cur@ =~= Seq::<char>::empty());
        assert(token_views(fields@) + Seq::<Seq<char>>::empty() =~= token_views(fields@));
        assert(scan_fields(Seq::empty(), cs@) == Some(token_views(fields@)));
    }
    let ghost fv = token_views(fields@);
    let mut items: Vec<Item> = Vec::new();
    let mut j: usize = 0;
    proof {
        assert(fv.subrange(0, fv.len() as int) =~= fv);
        if group_fields(fv) is Some {
            let rest = choose|rest: Seq<ItemV>| group_fields(fv) == Some(rest);
            assert(views_of(items@) + rest =~= rest);
        }
    }
    while fields.len() >= 3 && j <= fields.len() - 3
        invariant
            j <= fields.len(),
            group_fields(fv) == (match group_fields(fv.subrange(j as int, fv.len() as int)) {
                Some(rest) => Some(views_of(items@) + rest),
                None => None::<Seq<ItemV>>,
            }),
        decreases fields.len() - j,
    {
        let ghost gsuf = fv.subrange(j as int, fv.len() as int);
        let ghost old_items = views_of(items@);
        proof {
            assert(gsuf.len() >= 3);
            assert(gsuf[0] == fv[j as int]);
            assert(gsuf[1] == fv[j + 1]);
            assert(gsuf[2] == fv[j + 2]);
            assert(gsuf.subrange(3, gsuf.len() as int) =~= fv.subrange(
                j + 3,
                fv.len() as int,
            ));
        }
        let label = chars_to_string(&fields[j]);
        let value = chars_to_string(&fields[j + 1]);
        let haystack = chars_to_string(&fields[j + 2]);
        items.push(Item { label, value, haystack });
        proof {
            let itv = (ItemV { label: fv[j as int], value: fv[j + 1], haystack: fv[j + 2] });
            assert(views_of(items@) =~= old_items.push(itv));
            if group_fields(fv.subrange(j + 3, fv.len() as int)) is Some {
                let rest = choose|rest: Seq<ItemV>|
                    group_fields(fv.subrange(j + 3, fv.len() as int)) == Some(rest);
                assert(old_items + (seq![itv] + rest) =~= views_of(items@) + rest);
            }
        }
        j = j + 3;
    }
    if j != fields.len() {
        proof {
            let gsuf = fv.subrange(j as int, fv.len() as int);
            assert(0 < gsuf.len() < 3);
            assert(group_fields(gsuf) is None);
        }
        return None;
    }
    proof {
        assert(fv.subrange(j as int, fv.len() as int) =~= Seq::<Seq<char>>::empty());
        assert(views_of(items@) + Seq::<ItemV>::empty() =~= views_of(items@));
    }
    Some(items)
}

proof fn lemma_scan_esc(cur: Seq<char>, f: Seq<char>, rest: Seq<char>)
    ensures
        scan_fields(cur, esc(f) + seq!['\n'] + rest) == (match scan_fields(Seq::empty(), rest) {
            Some(fs) => Some(seq![cur + f] + fs),
            None => None::<Seq<Seq<char>>>,
        }),
    decreases f.len(),
{
    let s = esc(f) + seq!['\n'] + rest;
    if f.len() == 0 {
        assert(esc(f) =~= Seq::<char>::empty());
        assert(s =~= seq!['\n'] + rest);
        assert(s[0] == '\n');
        assert(s.drop_first() =~= rest);
        assert(cur + f =~= cur);
    } else {
        let c = f[0];
        let ftail = f.drop_first();
        assert(esc(f) == esc_char(c) + esc(ftail));
        if c == '\\' {
            assert(s[0] == '\\');
            assert(s[1] == '\\');
            assert(s.subrange(2, s.len() as int) =~= esc(ftail) + seq!['\n'] + rest);
            lemma_scan_esc(cur.push('\\'), ftail, rest);
            assert(cur.push('\\') + ftail =~= cur + f);
        } else if c == '\n' {
            assert(s[0] == '\\');
            assert(s[1] == 'n');
            assert(s.subrange(2, s.len() as int) =~= esc(ftail) + seq!['\n'] + rest);
            lemma_scan_esc(cur.push('\n'), ftail, rest);
            assert(cur.push('\n') + ftail =~= cur + f);
        } else {
            assert(s[0] == c);
            assert(s.drop_first() =~= esc(ftail) + seq!['\n'] + rest);
            lemma_scan_esc(cur.push(c), ftail, rest);
            assert(cur.push(c) + ftail =~= cur + f);
        }
    }
}

/// The three fields of each item, flattened in order.
pub open spec fn fields_of(items: Seq<ItemV>) -> Seq<Seq<char>>
    decreases items.len(),
{
    if items.len() == 0 {
        Seq::empty()
    } else {
        seq![items[0].label, items[0].value, items[0].haystack] + fields_of(items.drop_first())
    }
}

proof fn lemma_scan_enc(items: Seq<ItemV>)
    ensures
        scan_fields(Seq::empty(), enc_items(items)) == Some(fields_of(items)),
    decreases items.len(),
{
    if items.len() == 0 {
        assert(enc_items(items) =~= Seq::<char>::empty());
        assert(fields_of(items) =~= Seq::<Seq<char>>::empty());
    } else {
        let it = items[0];
        let rest_items = items.drop_first();
        lemma_scan_enc(rest_items);
        let s3 = enc_items(rest_items);
        let s2 = esc(it.haystack) + seq!['\n'] + s3;
        let s1 = esc(it.value) + seq!['\n'] + s2;
        let s0 = esc(it.label) + seq!['\n'] + s1;
        assert(enc_items(items) =~= s0);
        lemma_scan_esc(Seq::empty(), it.haystack, s3);
        lemma_scan_esc(Seq::empty(), it.value, s2);
        lemma_scan_esc(Seq::empty(), it.label, s1);
        assert(Seq::<char>::empty() + it.label =~= it.label);
        assert(Seq::<char>::empty() + it.value =~= it.value);
        assert(Seq::<char>::empty() + it.haystack =~= it.haystack);
        assert(seq![it.label] + (seq![it.value] + (seq![it.haystack] + fields_of(rest_items)))
            =~= fields_of(items));
    }
}

proof fn lemma_group_fields_of(items: Seq<ItemV>)
    ensures
        group_fields(fields_of(items)) == Some(items),
    decreases items.len(),
{
    if items.len() == 0 {
        assert(fields_of(items) =~= Seq::<Seq<char>>::empty());
    } else {
        lemma_group_fields_of(items.drop_first());
        let fs = fields_of(items);
        assert(fs.len() >= 3);
        assert(fs[0] == items[0].label);
        assert(fs[1] == items[0].value);
        assert(fs[2] == items[0].haystack);
        assert(fs.subrange(3, fs.len() as int) =~= fields_of(items.drop_first()));
        assert((ItemV { label: fs[0], value: fs[1], haystack: fs[2] }) == items[0]);
        assert(seq![items[0]] + items.drop_first() =~= items);
    }
}

/// Cache round trip: decoding an encoded snapshot yields exactly the items
/// that were stored, field for field, in order.
pub proof fn lemma_cache_round_trip(items: Seq<ItemV>)
    ensures
        decoded_items(enc_items(items)) == Some(items),
{
    lemma_scan_enc(items);
    lemma_group_fields_of(items);
}

} // verus!
