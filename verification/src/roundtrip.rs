//! The parser inverts the serializer: a store encoded by this library's
//! own writer parses back to exactly the entry list it was written from.

use vstd::prelude::*;

use crate::codec::{
    esc_byte, escape, is_escapable, is_ws, key_autobrake, key_autothrottle, key_fuel,
    key_hf_antenna, key_navigation, ser_entries, ser_entry, ser_field_head, ser_num_list,
    ser_snap, ser_store, ser_string, spec_entries, spec_fields, spec_load, spec_num_array,
    spec_num_value, spec_parse_string, spec_snapshot, spec_store, spec_str_scan, spec_ws,
    unescape_byte, PartialSnap,
};
use crate::numtok::{is_digit, is_num_cont, is_number_token, lemma_number_embed, lemma_scan_digits_props, scan_digits};
use crate::snapshot::SnapV;
use crate::store::wf_store;

verus! {

/// The byte sequence `x` sits at position `i` of `s`.
pub open spec fn at(s: Seq<u8>, i: int, x: Seq<u8>) -> bool {
    0 <= i && i + x.len() <= s.len() && s.subrange(i, i + x.len() as int) == x
}

/// A window on a concatenation splits into windows on its parts.
proof fn lemma_at_split(s: Seq<u8>, i: int, a: Seq<u8>, b: Seq<u8>)
    requires
        at(s, i, a + b),
    ensures
        at(s, i, a),
        at(s, i + a.len(), b),
{
    let ab = a + b;
    let w = s.subrange(i, i + ab.len() as int);
    assert forall|x: int| 0 <= x < a.len() implies s.subrange(i, i + a.len() as int)[x] == a[x] by {
        assert(w[x] == s[i + x]);
        assert(ab[x] == a[x]);
    }
    assert(s.subrange(i, i + a.len() as int) =~= a);
    assert forall|x: int| 0 <= x < b.len() implies s.subrange(
        i + a.len(),
        i + a.len() + b.len() as int,
    )[x] == b[x] by {
        assert(w[a.len() + x] == s[i + a.len() + x]);
        assert(ab[a.len() + x] == b[x]);
    }
    assert(s.subrange(i + a.len(), i + a.len() + b.len() as int) =~= b);
}

/// The byte at offset `j` of a window is the window's own byte.
proof fn lemma_at_byte(s: Seq<u8>, i: int, x: Seq<u8>, j: int)
    requires
        at(s, i, x),
        0 <= j < x.len(),
    ensures
        s[i + j] == x[j],
{
    assert(s.subrange(i, i + x.len() as int)[j] == x[j]);
}

/// Scanning a string body over the escaped form of `k` decodes `k` itself
/// and stops just past the closing quote.
proof fn lemma_str_scan_embed(s: Seq<u8>, i: int, k: Seq<u8>, acc: Seq<u8>)
    requires
        at(s, i, escape(k) + seq![34u8]),
    ensures
        spec_str_scan(s, i, acc) == Some((acc + k, i + escape(k).len() + 1)),
    decreases k.len(),
{
    if k.len() == 0 {
        assert(escape(k) + seq![34u8] =~= seq![34u8]);
        lemma_at_byte(s, i, seq![34u8], 0);
        assert(s[i] == 34);
        assert(acc + k =~= acc);
    } else {
        assert(escape(k) == esc_byte(k[0]) + escape(k.skip(1)));
        assert(escape(k) + seq![34u8] =~= esc_byte(k[0]) + (escape(k.skip(1)) + seq![34u8]));
        lemma_at_split(s, i, esc_byte(k[0]), escape(k.skip(1)) + seq![34u8]);
        if k[0] == 34 || k[0] == 92 {
            lemma_at_byte(s, i, esc_byte(k[0]), 0);
            lemma_at_byte(s, i, esc_byte(k[0]), 1);
            assert(s[i] == 92);
            assert(s[i + 1] == k[0]);
            assert(is_escapable(s[i + 1]));
            assert(unescape_byte(s[i + 1]) == k[0]);
            lemma_str_scan_embed(s, i + 2, k.skip(1), acc.push(k[0]));
            assert(acc.push(k[0]) + k.skip(1) =~= acc + k);
        } else {
            lemma_at_byte(s, i, esc_byte(k[0]), 0);
            assert(s[i] == k[0]);
            lemma_str_scan_embed(s, i + 1, k.skip(1), acc.push(k[0]));
            assert(acc.push(k[0]) + k.skip(1) =~= acc + k);
        }
    }
}

/// A quoted, escaped string embedded in `s` parses to exactly its source
/// bytes.
proof fn lemma_string_embed(s: Seq<u8>, i: int, k: Seq<u8>)
    requires
        at(s, i, ser_string(k)),
    ensures
        spec_parse_string(s, i) == Some((k, i + ser_string(k).len())),
{
    assert(ser_string(k) =~= seq![34u8] + (escape(k) + seq![34u8]));
    lemma_at_split(s, i, seq![34u8], escape(k) + seq![34u8]);
    lemma_at_byte(s, i, seq![34u8], 0);
    assert(s[i] == 34);
    lemma_str_scan_embed(s, i + 1, k, Seq::<u8>::empty());
    assert(Seq::<u8>::empty() + k =~= k);
}

/// A well-formed number token starts with a minus sign or a digit.
proof fn lemma_token_first_byte(t: Seq<u8>)
    requires
        is_number_token(t),
    ensures
        t.len() >= 1,
        t[0] == 45 || is_digit(t[0]),
        !is_ws(t[0]),
        t[0] != 34 && t[0] != 123 && t[0] != 125 && t[0] != 44 && t[0] != 93 && t[0] != 91
            && t[0] != 58,
{
    if t.len() == 0 {
        assert(scan_digits(t, 0) == 0);
    }
    if t[0] != 45 {
        lemma_scan_digits_props(t, 0);
        assert(scan_digits(t, 0) > 0);
        assert(is_digit(t[0]));
    }
}

/// A comma-separated token list followed by a closing bracket parses to
/// exactly its tokens.
proof fn lemma_nums_embed(s: Seq<u8>, i: int, toks: Seq<Seq<u8>>, acc: Seq<Seq<u8>>)
    requires
        toks.len() > 0,
        forall|x: int| 0 <= x < toks.len() ==> is_number_token(#[trigger] toks[x]),
        at(s, i, ser_num_list(toks) + seq![93u8]),
    ensures
        crate::codec::spec_nums(s, i, acc) == Some((acc + toks, i + ser_num_list(toks).len() + 1)),
    decreases toks.len(),
{
    let t0 = toks[0];
    lemma_token_first_byte(t0);
    if toks.len() == 1 {
        assert(ser_num_list(toks) == t0);
        lemma_at_split(s, i, t0, seq![93u8]);
        lemma_at_byte(s, i, t0, 0);
        assert(s[i] == t0[0]);
        assert(spec_ws(s, i) == i);
        lemma_at_byte(s, i + t0.len(), seq![93u8], 0);
        assert(s[i + t0.len()] == 93);
        assert(!is_num_cont(s[i + t0.len()]));
        lemma_number_embed(s, i, t0);
        let e = i + t0.len() as int;
        assert(spec_num_value(s, i) == Some((s.subrange(i, e), e)));
        assert(s.subrange(i, e) == t0);
        assert(spec_ws(s, e) == e);
        assert(acc.push(t0) =~= acc + toks);
    } else {
        assert(ser_num_list(toks) == t0 + seq![44u8] + ser_num_list(toks.skip(1)));
        assert(ser_num_list(toks) + seq![93u8] =~= t0 + (seq![44u8] + (ser_num_list(toks.skip(1))
            + seq![93u8])));
        lemma_at_split(s, i, t0, seq![44u8] + (ser_num_list(toks.skip(1)) + seq![93u8]));
        lemma_at_split(s, i + t0.len(), seq![44u8], ser_num_list(toks.skip(1)) + seq![93u8]);
        lemma_at_byte(s, i, t0, 0);
        assert(s[i] == t0[0]);
        assert(spec_ws(s, i) == i);
        lemma_at_byte(s, i + t0.len(), seq![44u8], 0);
        assert(s[i + t0.len()] == 44);
        assert(!is_num_cont(s[i + t0.len()]));
        lemma_number_embed(s, i, t0);
        let e = i + t0.len() as int;
        assert(spec_num_value(s, i) == Some((s.subrange(i, e), e)));
        assert(s.subrange(i, e) == t0);
        assert(spec_ws(s, e) == e);
        assert(forall|x: int| 0 <= x < toks.skip(1).len() ==> is_number_token(
            #[trigger] toks.skip(1)[x],
        )) by {
            assert(forall|x: int| 0 <= x < toks.skip(1).len() ==> toks.skip(1)[x] == toks[x + 1]);
        }
        lemma_nums_embed(s, e + 1, toks.skip(1), acc.push(t0));
        assert(acc.push(t0) + toks.skip(1) =~= acc + toks);
    }
}

/// A bracketed token list parses to exactly its tokens.
proof fn lemma_num_array_embed(s: Seq<u8>, i: int, toks: Seq<Seq<u8>>)
    requires
        forall|x: int| 0 <= x < toks.len() ==> is_number_token(#[trigger] toks[x]),
        at(s, i, seq![91u8] + ser_num_list(toks) + seq![93u8]),
    ensures
        spec_num_array(s, i) == Some(
            (toks, i + 1 + ser_num_list(toks).len() + 1),
        ),
{
    assert(seq![91u8] + ser_num_list(toks) + seq![93u8] =~= seq![91u8] + (ser_num_list(toks)
        + seq![93u8]));
    lemma_at_split(s, i, seq![91u8], ser_num_list(toks) + seq![93u8]);
    lemma_at_byte(s, i, seq![91u8], 0);
    assert(s[i] == 91);
    assert(spec_ws(s, i) == i);
    if toks.len() == 0 {
        assert(ser_num_list(toks) + seq![93u8] =~= seq![93u8]);
        lemma_at_byte(s, i + 1, seq![93u8], 0);
        assert(s[i + 1] == 93);
        assert(spec_ws(s, i + 1) == i + 1);
        assert(spec_num_array(s, i) == Some((Seq::<Seq<u8>>::empty(), i + 2)));
    } else {
        let t0 = toks[0];
        lemma_token_first_byte(t0);
        lemma_at_split(s, i + 1, ser_num_list(toks), seq![93u8]);
        assert(ser_num_list(toks)[0] == t0[0]) by {
            if toks.len() == 1 {
            } else {
                assert(ser_num_list(toks) == t0 + seq![44u8] + ser_num_list(toks.skip(1)));
            }
        }
        lemma_at_byte(s, i + 1, ser_num_list(toks), 0);
        assert(s[i + 1] == t0[0]);
        assert(spec_ws(s, i + 1) == i + 1);
        assert(s[i + 1] != 93);
        lemma_nums_embed(s, i + 1, toks, Seq::<Seq<u8>>::empty());
        assert(Seq::<Seq<u8>>::empty() + toks =~= toks);
    }
}

/// A window merges back into one on the concatenation.
proof fn lemma_at_join(s: Seq<u8>, i: int, a: Seq<u8>, b: Seq<u8>)
    requires
        at(s, i, a),
        at(s, i + a.len(), b),
    ensures
        at(s, i, a + b),
{
    let ab = a + b;
    assert forall|x: int| 0 <= x < ab.len() implies s.subrange(i, i + ab.len() as int)[x]
        == ab[x] by {
        if x < a.len() {
            assert(s.subrange(i, i + a.len() as int)[x] == a[x]);
        } else {
            assert(s.subrange(i + a.len(), i + a.len() + b.len() as int)[x - a.len()] == b[x
                - a.len()]);
        }
    }
    assert(s.subrange(i, i + ab.len() as int) =~= ab);
}

/// Parses one switch field out of its exact encoding: the quoted name, a
/// colon, a number token, then the given separator byte.
proof fn lemma_field_parse(s: Seq<u8>, c: int, name: Seq<u8>, tok: Seq<u8>, sep: u8)
    requires
        is_number_token(tok),
        sep == 44 || sep == 125,
        at(s, c, ser_string(name)),
        at(s, c + ser_string(name).len(), seq![58u8]),
        at(s, c + ser_string(name).len() + 1, tok),
        at(s, c + ser_string(name).len() + 1 + tok.len(), seq![sep]),
    ensures
        spec_ws(s, c) == c,
        spec_parse_string(s, c) == Some((name, c + ser_string(name).len())),
        spec_ws(s, c + ser_string(name).len()) == c + ser_string(name).len(),
        s[c + ser_string(name).len()] == 58,
        c + ser_string(name).len() < s.len(),
        spec_num_value(s, c + ser_string(name).len() + 1) == Some(
            (tok, c + ser_string(name).len() + 1 + tok.len()),
        ),
        spec_ws(s, c + ser_string(name).len() + 1 + tok.len()) == c + ser_string(name).len() + 1
            + tok.len(),
        s[c + ser_string(name).len() + 1 + tok.len()] == sep,
        c + ser_string(name).len() + 1 + tok.len() < s.len(),
{
    lemma_string_embed(s, c, name);
    assert(ser_string(name) =~= seq![34u8] + (escape(name) + seq![34u8]));
    assert(ser_string(name)[0] == 34);
    lemma_at_byte(s, c, ser_string(name), 0);
    assert(s[c] == 34);
    assert(spec_ws(s, c) == c);
    let j1 = c + ser_string(name).len() as int;
    lemma_at_byte(s, j1, seq![58u8], 0);
    assert(s[j1] == 58);
    assert(spec_ws(s, j1) == j1);
    lemma_token_first_byte(tok);
    lemma_at_byte(s, j1 + 1, tok, 0);
    assert(s[j1 + 1] == tok[0]);
    assert(spec_ws(s, j1 + 1) == j1 + 1);
    let e = j1 + 1 + tok.len() as int;
    lemma_at_byte(s, e, seq![sep as u8], 0);
    assert(s[e] == sep);
    assert(!is_num_cont(s[e]));
    lemma_number_embed(s, j1 + 1, tok);
    assert(s.subrange(j1 + 1, e) == tok);
    assert(spec_num_value(s, j1 + 1) == Some((tok, e)));
    assert(spec_ws(s, e) == e);
}

/// The field names are pairwise distinct.
proof fn lemma_keys_distinct()
    ensures
        key_autobrake() != key_fuel(),
        key_autothrottle() != key_fuel(),
        key_autothrottle() != key_autobrake(),
        key_hf_antenna() != key_fuel(),
        key_hf_antenna() != key_autobrake(),
        key_hf_antenna() != key_autothrottle(),
        key_navigation() != key_fuel(),
        key_navigation() != key_autobrake(),
        key_navigation() != key_autothrottle(),
        key_navigation() != key_hf_antenna(),
{
    assert(key_fuel().len() == 4);
    assert(key_autobrake().len() == 9);
    assert(key_autothrottle().len() == 12);
    assert(key_hf_antenna().len() == 10);
    assert(key_navigation().len() == 10);
    assert(key_navigation()[0] == 110u8);
    assert(key_hf_antenna()[0] == 104u8);
}

/// A snapshot record encoded by this library parses back to exactly the
/// snapshot it was written from.
#[verifier::rlimit(100)]
proof fn lemma_snap_embed(s: Seq<u8>, i: int, v: SnapV)
    requires
        crate::snapshot::wf_snap(v),
        at(s, i, ser_snap(v)),
    ensures
        spec_snapshot(s, i) == Some((v, i + ser_snap(v).len())),
{
    lemma_keys_distinct();
    let pa = seq![123u8];
    let bb = ser_string(key_fuel());
    let cc = seq![58u8, 91u8];
    let dd = ser_num_list(v.fuel);
    let ee = seq![93u8];
    let ff = ser_field_head(key_autobrake());
    let gg = v.autobrake;
    let hh = ser_field_head(key_autothrottle());
    let ii = v.autothrottle;
    let jj = ser_field_head(key_hf_antenna());
    let kk = v.hf_antenna;
    let ll = ser_field_head(key_navigation());
    let mm = v.navigation;
    let nn = seq![125u8];
    // Peel the encoding apart, following its left-nested concatenation.
    lemma_at_split(s, i, pa + bb + cc + dd + ee + ff + gg + hh + ii + jj + kk + ll + mm, nn);
    lemma_at_split(s, i, pa + bb + cc + dd + ee + ff + gg + hh + ii + jj + kk + ll, mm);
    lemma_at_split(s, i, pa + bb + cc + dd + ee + ff + gg + hh + ii + jj + kk, ll);
    lemma_at_split(s, i, pa + bb + cc + dd + ee + ff + gg + hh + ii + jj, kk);
    lemma_at_split(s, i, pa + bb + cc + dd + ee + ff + gg + hh + ii, jj);
    lemma_at_split(s, i, pa + bb + cc + dd + ee + ff + gg + hh, ii);
    lemma_at_split(s, i, pa + bb + cc + dd + ee + ff + gg, hh);
    lemma_at_split(s, i, pa + bb + cc + dd + ee + ff, gg);
    lemma_at_split(s, i, pa + bb + cc + dd + ee, ff);
    lemma_at_split(s, i, pa + bb + cc + dd, ee);
    lemma_at_split(s, i, pa + bb + cc, dd);
    lemma_at_split(s, i, pa + bb, cc);
    lemma_at_split(s, i, pa, bb);
    let p1 = i + 1;
    let p2 = p1 + bb.len() as int;
    let p3 = p2 + 2;
    let p4 = p3 + dd.len() as int;
    let p5 = p4 + 1;
    let p6 = p5 + ff.len() as int;
    let p7 = p6 + gg.len() as int;
    let p8 = p7 + hh.len() as int;
    let p9 = p8 + ii.len() as int;
    let p10 = p9 + jj.len() as int;
    let p11 = p10 + kk.len() as int;
    let p12 = p11 + ll.len() as int;
    let p13 = p12 + mm.len() as int;
    // The opening brace and the record's first field name.
    lemma_at_byte(s, i, pa, 0);
    assert(s[i] == 123);
    assert(spec_ws(s, i) == i);
    assert(ser_string(key_fuel()) =~= seq![34u8] + (escape(key_fuel()) + seq![34u8]));
    assert(bb[0] == 34);
    lemma_at_byte(s, p1, bb, 0);
    assert(s[p1] == 34);
    assert(spec_ws(s, p1) == p1);
    assert(spec_snapshot(s, i) == spec_fields(s, p1, crate::codec::empty_partial()));
    // The fuel field: its name, the colon, the bracketed token list.
    lemma_string_embed(s, p1, key_fuel());
    assert(cc =~= seq![58u8] + seq![91u8]);
    lemma_at_split(s, p2, seq![58u8], seq![91u8]);
    lemma_at_byte(s, p2, seq![58u8], 0);
    assert(s[p2] == 58);
    assert(spec_ws(s, p2) == p2);
    lemma_at_join(s, p2 + 1, seq![91u8], dd);
    lemma_at_join(s, p2 + 1, seq![91u8] + dd, ee);
    assert(forall|x: int| 0 <= x < v.fuel.len() ==> is_number_token(#[trigger] v.fuel[x]));
    lemma_num_array_embed(s, p2 + 1, v.fuel);
    assert(spec_num_array(s, p2 + 1) == Some((v.fuel, p5)));
    lemma_at_byte(s, p5, ff, 0);
    assert(ff =~= seq![44u8] + ser_string(key_autobrake()) + seq![58u8]);
    assert(s[p5] == 44);
    assert(spec_ws(s, p5) == p5);
    let part1 = PartialSnap {
        fuel: Some(v.fuel),
        autobrake: None,
        autothrottle: None,
        hf_antenna: None,
        navigation: None,
    };
    assert(spec_fields(s, p1, crate::codec::empty_partial()) == spec_fields(s, p5 + 1, part1));
    // The autobrake field.
    lemma_at_split(s, p5, seq![44u8] + ser_string(key_autobrake()), seq![58u8]);
    lemma_at_split(s, p5, seq![44u8], ser_string(key_autobrake()));
    lemma_token_first_byte(gg);
    lemma_at_byte(s, p7, hh, 0);
    assert(hh =~= seq![44u8] + ser_string(key_autothrottle()) + seq![58u8]);
    assert(s[p7] == 44);
    assert(p5 + 1 + ser_string(key_autobrake()).len() == p6 - 1);
    assert(at(s, p6 - 1, seq![58u8]));
    lemma_at_split(s, p7, seq![44u8] + ser_string(key_autothrottle()), seq![58u8]);
    lemma_at_split(s, p7, seq![44u8], ser_string(key_autothrottle()));
    assert(at(s, p6 - 1 + 1 + gg.len(), seq![44u8]));
    lemma_field_parse(s, p5 + 1, key_autobrake(), gg, 44u8);
    let part2 = PartialSnap {
        fuel: Some(v.fuel),
        autobrake: Some(v.autobrake),
        autothrottle: None,
        hf_antenna: None,
        navigation: None,
    };
    assert(spec_fields(s, p5 + 1, part1) == spec_fields(s, p7 + 1, part2));
    // The autothrottle field.
    lemma_at_byte(s, p9, jj, 0);
    assert(jj =~= seq![44u8] + ser_string(key_hf_antenna()) + seq![58u8]);
    assert(s[p9] == 44);
    assert(p7 + 1 + ser_string(key_autothrottle()).len() == p8 - 1);
    assert(at(s, p8 - 1, seq![58u8]));
    lemma_at_split(s, p9, seq![44u8] + ser_string(key_hf_antenna()), seq![58u8]);
    lemma_at_split(s, p9, seq![44u8], ser_string(key_hf_antenna()));
    assert(at(s, p8 + ii.len(), seq![44u8]));
    lemma_field_parse(s, p7 + 1, key_autothrottle(), ii, 44u8);
    let part3 = PartialSnap {
        fuel: Some(v.fuel),
        autobrake: Some(v.autobrake),
        autothrottle: Some(v.autothrottle),
        hf_antenna: None,
        navigation: None,
    };
    assert(spec_fields(s, p7 + 1, part2) == spec_fields(s, p9 + 1, part3));
    // The antenna field.
    lemma_at_byte(s, p11, ll, 0);
    assert(ll =~= seq![44u8] + ser_string(key_navigation()) + seq![58u8]);
    assert(s[p11] == 44);
    assert(p9 + 1 + ser_string(key_hf_antenna()).len() == p10 - 1);
    assert(at(s, p10 - 1, seq![58u8]));
    lemma_at_split(s, p11, seq![44u8] + ser_string(key_navigation()), seq![58u8]);
    lemma_at_split(s, p11, seq![44u8], ser_string(key_navigation()));
    assert(at(s, p10 + kk.len(), seq![44u8]));
    lemma_field_parse(s, p9 + 1, key_hf_antenna(), kk, 44u8);
    let part4 = PartialSnap {
        fuel: Some(v.fuel),
        autobrake: Some(v.autobrake),
        autothrottle: Some(v.autothrottle),
        hf_antenna: Some(v.hf_antenna),
        navigation: None,
    };
    assert(spec_fields(s, p9 + 1, part3) == spec_fields(s, p11 + 1, part4));
    // The navigation field, closed by the record's brace.
    assert(p11 + 1 + ser_string(key_navigation()).len() == p12 - 1);
    assert(at(s, p12 - 1, seq![58u8]));
    assert(at(s, p12 + mm.len(), seq![125u8]));
    lemma_field_parse(s, p11 + 1, key_navigation(), mm, 125u8);
    let part5 = PartialSnap {
        fuel: Some(v.fuel),
        autobrake: Some(v.autobrake),
        autothrottle: Some(v.autothrottle),
        hf_antenna: Some(v.hf_antenna),
        navigation: Some(v.navigation),
    };
    assert(crate::codec::finish_snap(part5) == Some(v)) by {
        let built = SnapV {
            fuel: v.fuel,
            autobrake: v.autobrake,
            autothrottle: v.autothrottle,
            hf_antenna: v.hf_antenna,
            navigation: v.navigation,
        };
        assert(built =~= v);
    };
    assert(spec_fields(s, p11 + 1, part4) == Some((v, p13 + 1)));
    assert(p13 + 1 == i + ser_snap(v).len());
}

/// A comma-separated entry list followed by the closing brace parses to
/// exactly its entries.
#[verifier::rlimit(100)]
proof fn lemma_entries_embed(
    s: Seq<u8>,
    i: int,
    m: Seq<(Seq<u8>, SnapV)>,
    acc: Seq<(Seq<u8>, SnapV)>,
)
    requires
        m.len() > 0,
        wf_store(m),
        at(s, i, ser_entries(m) + seq![125u8]),
    ensures
        spec_entries(s, i, acc) == Some((acc + m, i + ser_entries(m).len() + 1)),
    decreases m.len(),
{
    let k0 = m[0].0;
    let v0 = m[0].1;
    let ss = ser_string(k0);
    let sn = ser_snap(v0);
    assert(crate::snapshot::wf_snap(v0));
    assert(ser_string(k0) =~= seq![34u8] + (escape(k0) + seq![34u8]));
    assert(ss[0] == 34);
    if m.len() == 1 {
        assert(ser_entries(m) == ser_entry(k0, v0));
        lemma_at_split(s, i, ser_entry(k0, v0), seq![125u8]);
        lemma_at_split(s, i, ss + seq![58u8], sn);
        lemma_at_split(s, i, ss, seq![58u8]);
        lemma_at_byte(s, i, ss, 0);
        assert(s[i] == 34);
        assert(spec_ws(s, i) == i);
        lemma_string_embed(s, i, k0);
        let j1 = i + ss.len() as int;
        lemma_at_byte(s, j1, seq![58u8], 0);
        assert(s[j1] == 58);
        assert(spec_ws(s, j1) == j1);
        lemma_snap_embed(s, j1 + 1, v0);
        let e = j1 + 1 + sn.len() as int;
        lemma_at_byte(s, i + ser_entries(m).len(), seq![125u8], 0);
        assert(e == i + ser_entries(m).len());
        assert(s[e] == 125);
        assert(spec_ws(s, e) == e);
        assert(acc.push((k0, v0)) =~= acc + m);
    } else {
        assert(ser_entries(m) == ser_entry(k0, v0) + seq![44u8] + ser_entries(m.skip(1)));
        assert(ser_entries(m) + seq![125u8] =~= ser_entry(k0, v0) + (seq![44u8] + (ser_entries(
            m.skip(1),
        ) + seq![125u8])));
        lemma_at_split(s, i, ser_entry(k0, v0), seq![44u8] + (ser_entries(m.skip(1)) + seq![125u8]));
        let e0 = i + ser_entry(k0, v0).len() as int;
        lemma_at_split(s, e0, seq![44u8], ser_entries(m.skip(1)) + seq![125u8]);
        lemma_at_split(s, i, ss + seq![58u8], sn);
        lemma_at_split(s, i, ss, seq![58u8]);
        lemma_at_byte(s, i, ss, 0);
        assert(s[i] == 34);
        assert(spec_ws(s, i) == i);
        lemma_string_embed(s, i, k0);
        let j1 = i + ss.len() as int;
        lemma_at_byte(s, j1, seq![58u8], 0);
        assert(s[j1] == 58);
        assert(spec_ws(s, j1) == j1);
        lemma_snap_embed(s, j1 + 1, v0);
        let e = j1 + 1 + sn.len() as int;
        assert(e == e0);
        lemma_at_byte(s, e0, seq![44u8], 0);
        assert(s[e] == 44);
        assert(spec_ws(s, e) == e);
        assert(wf_store(m.skip(1))) by {
            assert(forall|x: int| 0 <= x < m.skip(1).len() ==> (#[trigger] m.skip(1)[x]) == m[x
                + 1]);
        }
        lemma_entries_embed(s, e0 + 1, m.skip(1), acc.push((k0, v0)));
        assert(acc.push((k0, v0)) + m.skip(1) =~= acc + m);
    }
}

/// The round trip of the store encoding: a well-formed entry list, encoded
/// by this library's writer, is read back as exactly that list.
pub proof fn lemma_load_ser(m: Seq<(Seq<u8>, SnapV)>)
    requires
        wf_store(m),
    ensures
        spec_load(ser_store(m)) == Some(m),
{
    let s = ser_store(m);
    assert(s.subrange(0, s.len() as int) =~= s);
    assert(at(s, 0, (seq![123u8] + ser_entries(m)) + seq![125u8]));
    lemma_at_split(s, 0, seq![123u8] + ser_entries(m), seq![125u8]);
    lemma_at_split(s, 0, seq![123u8], ser_entries(m));
    lemma_at_byte(s, 0, seq![123u8], 0);
    assert(s[0] == 123);
    assert(spec_ws(s, 0) == 0);
    if m.len() == 0 {
        assert(ser_entries(m).len() == 0);
        lemma_at_byte(s, 1, seq![125u8], 0);
        assert(s[1] == 125);
        assert(spec_ws(s, 1) == 1);
        assert(spec_store(s, 0) == Some((Seq::<(Seq<u8>, SnapV)>::empty(), 2int)));
        assert(s.len() == 2);
        assert(spec_ws(s, 2) == 2);
        assert(Seq::<(Seq<u8>, SnapV)>::empty() =~= m);
    } else {
        let k0 = m[0].0;
        let v0 = m[0].1;
        assert(ser_entries(m)[0] == 34) by {
            assert(ser_string(k0) =~= seq![34u8] + (escape(k0) + seq![34u8]));
            if m.len() == 1 {
                assert(ser_entries(m) == ser_entry(k0, v0));
            } else {
                assert(ser_entries(m) == ser_entry(k0, v0) + seq![44u8] + ser_entries(m.skip(1)));
            }
        }
        lemma_at_byte(s, 1, ser_entries(m), 0);
        assert(s[1] == 34);
        assert(spec_ws(s, 1) == 1);
        lemma_at_join(s, 1, ser_entries(m), seq![125u8]);
        lemma_entries_embed(s, 1, m, Seq::<(Seq<u8>, SnapV)>::empty());
        assert(Seq::<(Seq<u8>, SnapV)>::empty() + m =~= m);
        assert(spec_store(s, 0) == Some((m, s.len() as int)));
        assert(spec_ws(s, s.len() as int) == s.len());
    }
}

/// A parsed number value is a well-formed token.
proof fn lemma_num_value_wf(s: Seq<u8>, i: int, tok: Seq<u8>, j: int)
    requires
        0 <= i <= s.len(),
        spec_num_value(s, i) == Some((tok, j)),
    ensures
        is_number_token(tok),
{
    crate::codec::lemma_ws_props(s, i);
    let w = spec_ws(s, i);
    crate::numtok::lemma_number_end_props(s, w, j);
}

/// Every token of a parsed number array is well-formed.
proof fn lemma_nums_wf(s: Seq<u8>, i: int, acc: Seq<Seq<u8>>)
    requires
        forall|x: int| 0 <= x < acc.len() ==> is_number_token(#[trigger] acc[x]),
    ensures
        match crate::codec::spec_nums(s, i, acc) {
            Some(p) => forall|x: int| 0 <= x < p.0.len() ==> is_number_token(#[trigger] p.0[x]),
            None => true,
        },
    decreases s.len() - i,
{
    if 0 <= i && i <= s.len() {
        match spec_num_value(s, i) {
            None => {},
            Some(p) => {
                lemma_num_value_wf(s, i, p.0, p.1);
                let j2 = spec_ws(s, p.1);
                if j2 < s.len() && s[j2] == 44 {
                    if j2 + 1 > i {
                        lemma_nums_wf(s, j2 + 1, acc.push(p.0));
                    }
                } else {
                }
            },
        }
    }
}

/// Every token of a parsed bracketed array is well-formed.
proof fn lemma_num_array_wf(s: Seq<u8>, i: int)
    ensures
        match spec_num_array(s, i) {
            Some(p) => forall|x: int| 0 <= x < p.0.len() ==> is_number_token(#[trigger] p.0[x]),
            None => true,
        },
{
    let j = spec_ws(s, i);
    if j < s.len() && s[j] == 91 {
        let j2 = spec_ws(s, j + 1);
        if j2 < s.len() && s[j2] == 93 {
        } else {
            lemma_nums_wf(s, j + 1, Seq::<Seq<u8>>::empty());
        }
    }
}

/// The bound tokens of a partial record are all well-formed.
pub open spec fn wf_partial(p: PartialSnap) -> bool {
    &&& match p.fuel {
        Some(f) => forall|x: int| 0 <= x < f.len() ==> is_number_token(#[trigger] f[x]),
        None => true,
    }
    &&& match p.autobrake {
        Some(t) => is_number_token(t),
        None => true,
    }
    &&& match p.autothrottle {
        Some(t) => is_number_token(t),
        None => true,
    }
    &&& match p.hf_antenna {
        Some(t) => is_number_token(t),
        None => true,
    }
    &&& match p.navigation {
        Some(t) => is_number_token(t),
        None => true,
    }
}

/// A record parsed from any bytes holds only well-formed tokens.
proof fn lemma_fields_wf(s: Seq<u8>, i: int, p: PartialSnap)
    requires
        wf_partial(p),
    ensures
        match spec_fields(s, i, p) {
            Some(vp) => crate::snapshot::wf_snap(vp.0),
            None => true,
        },
    decreases s.len() - i,
{
    crate::numtok::lemma_default_token_wf();
    if 0 <= i && i <= s.len() {
        let j = spec_ws(s, i);
        match spec_parse_string(s, j) {
            None => {},
            Some(kp) => {
                let j2 = spec_ws(s, kp.1);
                if j2 < s.len() && s[j2] == 58 {
                    let vres: Option<(PartialSnap, int)> = if kp.0 == key_fuel() {
                        match spec_num_array(s, j2 + 1) {
                            None => None,
                            Some(ap) => Some(
                                (
                                    PartialSnap {
                                        fuel: Some(ap.0),
                                        autobrake: p.autobrake,
                                        autothrottle: p.autothrottle,
                                        hf_antenna: p.hf_antenna,
                                        navigation: p.navigation,
                                    },
                                    ap.1,
                                ),
                            ),
                        }
                    } else if kp.0 == key_autobrake() {
                        match spec_num_value(s, j2 + 1) {
                            None => None,
                            Some(np) => Some(
                                (
                                    PartialSnap {
                                        fuel: p.fuel,
                                        autobrake: Some(np.0),
                                        autothrottle: p.autothrottle,
                                        hf_antenna: p.hf_antenna,
                                        navigation: p.navigation,
                                    },
                                    np.1,
                                ),
                            ),
                        }
                    } else if kp.0 == key_autothrottle() {
                        match spec_num_value(s, j2 + 1) {
                            None => None,
                            Some(np) => Some(
                                (
                                    PartialSnap {
                                        fuel: p.fuel,
                                        autobrake: p.autobrake,
                                        autothrottle: Some(np.0),
                                        hf_antenna: p.hf_antenna,
                                        navigation: p.navigation,
                                    },
                                    np.1,
                                ),
                            ),
                        }
                    } else if kp.0 == key_hf_antenna() {
                        match spec_num_value(s, j2 + 1) {
                            None => None,
                            Some(np) => Some(
                                (
                                    PartialSnap {
                                        fuel: p.fuel,
                                        autobrake: p.autobrake,
                                        autothrottle: p.autothrottle,
                                        hf_antenna: Some(np.0),
                                        navigation: p.navigation,
                                    },
                                    np.1,
                                ),
                            ),
                        }
                    } else if kp.0 == key_navigation() {
                        match spec_num_value(s, j2 + 1) {
                            None => None,
                            Some(np) => Some(
                                (
                                    PartialSnap {
                                        fuel: p.fuel,
                                        autobrake: p.autobrake,
                                        autothrottle: p.autothrottle,
                                        hf_antenna: p.hf_antenna,
                                        navigation: Some(np.0),
                                    },
                                    np.1,
                                ),
                            ),
                        }
                    } else {
                        match crate::codec::spec_skip_value(s, j2 + 1) {
                            None => None,
                            Some(j3) => Some((p, j3)),
                        }
                    };
                    match vres {
                        None => {},
                        Some(pv) => {
                            assert(wf_partial(pv.0)) by {
                                crate::codec::lemma_str_scan_bounds(s, j + 1, Seq::<u8>::empty());
                                crate::codec::lemma_ws_props(s, i);
                                if kp.0 == key_fuel() {
                                    lemma_num_array_wf(s, j2 + 1);
                                } else if kp.0 == key_autobrake() || kp.0 == key_autothrottle()
                                    || kp.0 == key_hf_antenna() || kp.0 == key_navigation() {
                                    match spec_num_value(s, j2 + 1) {
                                        None => {},
                                        Some(np) => {
                                            lemma_num_value_wf(s, j2 + 1, np.0, np.1);
                                        },
                                    }
                                }
                            }
                            let j4 = spec_ws(s, pv.1);
                            if j4 < s.len() && s[j4] == 44 {
                                if j4 + 1 > i {
                                    lemma_fields_wf(s, j4 + 1, pv.0);
                                }
                            } else {
                            }
                        },
                    }
                }
            },
        }
    }
}

/// Every record of a parsed entry list holds only well-formed tokens.
proof fn lemma_entries_wf(s: Seq<u8>, i: int, acc: Seq<(Seq<u8>, SnapV)>)
    requires
        wf_store(acc),
    ensures
        match spec_entries(s, i, acc) {
            Some(p) => wf_store(p.0),
            None => true,
        },
    decreases s.len() - i,
{
    if 0 <= i && i <= s.len() {
        let j = spec_ws(s, i);
        match spec_parse_string(s, j) {
            None => {},
            Some(kp) => {
                let j2 = spec_ws(s, kp.1);
                if j2 < s.len() && s[j2] == 58 {
                    match spec_snapshot(s, j2 + 1) {
                        None => {},
                        Some(vp) => {
                            assert(crate::snapshot::wf_snap(vp.0)) by {
                                let jn = spec_ws(s, j2 + 1);
                                if jn < s.len() && s[jn] == 123 {
                                    assert(wf_partial(crate::codec::empty_partial()));
                                    lemma_fields_wf(s, jn + 1, crate::codec::empty_partial());
                                }
                            }
                            let j4 = spec_ws(s, vp.1);
                            let acc2 = acc.push((kp.0, vp.0));
                            assert(wf_store(acc2)) by {
                                assert(forall|x: int| 0 <= x < acc.len() ==> acc2[x] == acc[x]);
                                assert(acc2[acc.len() as int].1 == vp.0);
                            }
                            if j4 < s.len() && s[j4] == 44 {
                                if j4 + 1 > i {
                                    lemma_entries_wf(s, j4 + 1, acc2);
                                }
                            } else {
                            }
                        },
                    }
                }
            },
        }
    }
}

/// Whatever a stored file's bytes are, a successful load yields only
/// well-formed tokens.
pub proof fn lemma_load_wf(s: Seq<u8>)
    ensures
        match spec_load(s) {
            Some(m) => wf_store(m),
            None => true,
        },
{
    let j = spec_ws(s, 0);
    if j < s.len() && s[j] == 123 {
        let j2 = spec_ws(s, j + 1);
        if j2 < s.len() && s[j2] == 125 {
            assert(wf_store(Seq::<(Seq<u8>, SnapV)>::empty()));
        } else {
            assert(wf_store(Seq::<(Seq<u8>, SnapV)>::empty()));
            lemma_entries_wf(s, j + 1, Seq::<(Seq<u8>, SnapV)>::empty());
        }
    }
}

/// A stored record holding only the `fuel` field.
pub open spec fn fuel_only_record(toks: Seq<Seq<u8>>) -> Seq<u8> {
    seq![123u8] + ser_string(key_fuel()) + seq![58u8, 91u8] + ser_num_list(toks) + seq![93u8, 125u8]
}

/// A stored file holding one livery whose record has only the `fuel`
/// field.
pub open spec fn fuel_only_doc(k: Seq<u8>, toks: Seq<Seq<u8>>) -> Seq<u8> {
    seq![123u8] + ser_string(k) + seq![58u8] + fuel_only_record(toks) + seq![125u8]
}

/// Defaulting: loading a stored record that holds only `fuel` yields the
/// default `0.0` token for every switch field.
#[verifier::rlimit(100)]
pub proof fn lemma_defaulting(k: Seq<u8>, toks: Seq<Seq<u8>>)
    requires
        forall|x: int| 0 <= x < toks.len() ==> is_number_token(#[trigger] toks[x]),
    ensures
        spec_load(fuel_only_doc(k, toks)) == Some(
            seq![
                (
                    k,
                    SnapV {
                        fuel: toks,
                        autobrake: crate::numtok::default_token(),
                        autothrottle: crate::numtok::default_token(),
                        hf_antenna: crate::numtok::default_token(),
                        navigation: crate::numtok::default_token(),
                    },
                ),
            ],
        ),
{
    let s = fuel_only_doc(k, toks);
    let rec = fuel_only_record(toks);
    let ss = ser_string(k);
    let v = SnapV {
        fuel: toks,
        autobrake: crate::numtok::default_token(),
        autothrottle: crate::numtok::default_token(),
        hf_antenna: crate::numtok::default_token(),
        navigation: crate::numtok::default_token(),
    };
    assert(s.subrange(0, s.len() as int) =~= s);
    assert(at(s, 0, seq![123u8] + ser_string(k) + seq![58u8] + rec + seq![125u8]));
    // Peel the document apart.
    lemma_at_split(s, 0, seq![123u8] + ss + seq![58u8] + rec, seq![125u8]);
    lemma_at_split(s, 0, seq![123u8] + ss + seq![58u8], rec);
    lemma_at_split(s, 0, seq![123u8] + ss, seq![58u8]);
    lemma_at_split(s, 0, seq![123u8], ss);
    let pk = 1 + ss.len() as int;
    let pr = pk + 1;
    let pe = pr + rec.len() as int;
    // Peel the record apart.
    let fss = ser_string(key_fuel());
    assert(rec =~= seq![123u8] + fss + seq![58u8, 91u8] + ser_num_list(toks) + seq![93u8, 125u8]);
    lemma_at_split(s, pr, seq![123u8] + fss + seq![58u8, 91u8] + ser_num_list(toks), seq![
        93u8,
        125u8,
    ]);
    lemma_at_split(s, pr, seq![123u8] + fss + seq![58u8, 91u8], ser_num_list(toks));
    lemma_at_split(s, pr, seq![123u8] + fss, seq![58u8, 91u8]);
    lemma_at_split(s, pr, seq![123u8], fss);
    let pf = pr + 1;
    let pc = pf + fss.len() as int;
    let pn = pc + 2;
    let pz = pn + ser_num_list(toks).len() as int;
    assert(seq![58u8, 91u8] =~= seq![58u8] + seq![91u8]);
    lemma_at_split(s, pc, seq![58u8], seq![91u8]);
    assert(seq![93u8, 125u8] =~= seq![93u8] + seq![125u8]);
    lemma_at_split(s, pz, seq![93u8], seq![125u8]);
    // Walk the parse.
    lemma_at_byte(s, 0, seq![123u8], 0);
    assert(s[0] == 123);
    assert(spec_ws(s, 0) == 0);
    assert(ser_string(k) =~= seq![34u8] + (escape(k) + seq![34u8]));
    assert(ss[0] == 34);
    lemma_at_byte(s, 1, ss, 0);
    assert(s[1] == 34);
    assert(spec_ws(s, 1) == 1);
    lemma_string_embed(s, 1, k);
    lemma_at_byte(s, pk, seq![58u8], 0);
    assert(s[pk] == 58);
    assert(spec_ws(s, pk) == pk);
    // The record.
    lemma_at_byte(s, pr, seq![123u8], 0);
    assert(s[pr] == 123);
    assert(spec_ws(s, pr) == pr);
    assert(ser_string(key_fuel()) =~= seq![34u8] + (escape(key_fuel()) + seq![34u8]));
    assert(fss[0] == 34);
    lemma_at_byte(s, pf, fss, 0);
    assert(s[pf] == 34);
    assert(spec_ws(s, pf) == pf);
    assert(spec_snapshot(s, pk + 1) == spec_fields(s, pf, crate::codec::empty_partial()));
    lemma_string_embed(s, pf, key_fuel());
    lemma_at_byte(s, pc, seq![58u8], 0);
    assert(s[pc] == 58);
    assert(spec_ws(s, pc) == pc);
    lemma_at_join(s, pc + 1, seq![91u8], ser_num_list(toks));
    lemma_at_join(s, pc + 1, seq![91u8] + ser_num_list(toks), seq![93u8]);
    lemma_num_array_embed(s, pc + 1, toks);
    assert(spec_num_array(s, pc + 1) == Some((toks, pz + 1)));
    lemma_at_byte(s, pz + 1, seq![125u8], 0);
    assert(s[pz + 1] == 125);
    assert(spec_ws(s, pz + 1) == pz + 1);
    let part1 = PartialSnap {
        fuel: Some(toks),
        autobrake: None,
        autothrottle: None,
        hf_antenna: None,
        navigation: None,
    };
    assert(spec_fields(s, pf, crate::codec::empty_partial()) == Some((v, pz + 2))) by {
        assert(crate::codec::finish_snap(part1) == Some(v));
    }
    assert(pz + 2 == pe);
    // Back at the entry list: the document closes right after the record.
    lemma_at_byte(s, pe, seq![125u8], 0);
    assert(s[pe] == 125);
    assert(spec_ws(s, pe) == pe);
    assert(spec_entries(s, 1, Seq::<(Seq<u8>, SnapV)>::empty()) == Some(
        (Seq::<(Seq<u8>, SnapV)>::empty().push((k, v)), pe + 1),
    ));
    assert(Seq::<(Seq<u8>, SnapV)>::empty().push((k, v)) =~= seq![(k, v)]);
    assert(spec_store(s, 0) == Some((seq![(k, v)], pe + 1)));
    assert(pe + 1 == s.len());
    assert(spec_ws(s, s.len() as int) == s.len());
}

} // verus!
