//! Byte layout of stored records: little-endian words, length-prefixed
//! UTF-8 text, and count-prefixed lists of text.
use vstd::prelude::*;
use vstd::bytes::*;
use vstd::slice::*;
use vstd::utf8::*;

verus! {

broadcast use {encode_utf8_valid_utf8, encode_utf8_decode_utf8, decode_utf8_encode_utf8};

/// Eight bytes, least significant first.
pub open spec fn word(x: u64) -> Seq<u8> {
    spec_u64_to_le_bytes(x)
}

/// The UTF-8 bytes of `s`, preceded by their count as a word.
pub open spec fn text(s: Seq<char>) -> Seq<u8> {
    word(#[verifier::truncate] (encode_utf8(s).len() as u64)) + encode_utf8(s)
}

/// The texts of `l`, one after another, with no count in front.
pub open spec fn text_run(l: Seq<Seq<char>>) -> Seq<u8>
    decreases l.len(),
{
    if l.len() == 0 {
        Seq::empty()
    } else {
        text_run(l.drop_last()) + text(l.last())
    }
}

/// A list of texts: the number of items as a word, then each item.
pub open spec fn text_list(l: Seq<Seq<char>>) -> Seq<u8> {
    word(#[verifier::truncate] (l.len() as u64)) + text_run(l)
}

/// The bytes of `b` from `pos` to the end.
pub open spec fn tail(b: Seq<u8>, pos: int) -> Seq<u8> {
    b.subrange(pos, b.len() as int)
}

proof fn lemma_text_run_split(l: Seq<Seq<char>>, i: int)
    requires
        0 <= i < l.len(),
    ensures
        text_run(l.skip(i)) == text(l[i]) + text_run(l.skip(i + 1)),
    decreases l.len(),
{
    if i == l.len() - 1 {
        assert(l.skip(i).drop_last() =~= Seq::<Seq<char>>::empty());
        assert(l.skip(i + 1) =~= Seq::<Seq<char>>::empty());
        assert(text(l[i]) + Seq::<u8>::empty() =~= text(l[i]));
    } else {
        lemma_text_run_split(l.drop_last(), i);
        assert(l.skip(i).drop_last() =~= l.drop_last().skip(i));
        assert(l.skip(i + 1).drop_last() =~= l.drop_last().skip(i + 1));
        assert(l.skip(i).last() == l.last());
        assert(l.skip(i + 1).last() == l.last());
        assert(text_run(l.skip(i)) =~= text(l[i]) + text_run(l.skip(i + 1)));
    }
}

proof fn lemma_text_run_len(l: Seq<Seq<char>>)
    ensures
        text_run(l).len() >= l.len(),
    decreases l.len(),
{
    lemma_auto_spec_u64_to_from_le_bytes();
    if l.len() > 0 {
        lemma_text_run_len(l.drop_last());
        assert(word(encode_utf8(l.last()).len() as u64).len() == 8);
    }
}

/// Appends the word for `x`.
pub fn push_word(out: &mut Vec<u8>, x: u64)
    ensures
        final(out)@ == old(out)@ + word(x),
{
    let mut w = u64_to_le_bytes(x);
    out.append(&mut w);
}

/// Appends `s` as a text.
pub fn push_text(out: &mut Vec<u8>, s: &String)
    ensures
        final(out)@ == old(out)@ + text(s@),
{
    let bytes = s.as_str().as_bytes();
    let n = bytes.len();
    push_word(out, n as u64);
    let mut v = slice_to_vec(bytes);
    out.append(&mut v);
    proof {
        assert(final(out)@ =~= old(out)@ + text(s@));
    }
}

/// Appends `l` as a list of texts.
pub fn push_text_list(out: &mut Vec<u8>, l: &Vec<String>)
    ensures
        final(out)@ == old(out)@ + text_list(l.deep_view()),
{
    push_word(out, l.len() as u64);
    let ghost start = out@;
    let mut i: usize = 0;
    while i < l.len()
        invariant
            i <= l.len(),
            out@ == start + text_run(l.deep_view().take(i as int)),
        decreases l.len() - i,
    {
        push_text(out, &l[i]);
        proof {
            let d = l.deep_view();
            assert(d.take(i + 1).drop_last() =~= d.take(i as int));
            assert(out@ =~= start + text_run(d.take(i + 1)));
        }
        i = i + 1;
    }
    proof {
        assert(l.deep_view().take(l.len() as int) =~= l.deep_view());
        assert(out@ =~= old(out)@ + text_list(l.deep_view()));
    }
}

/// Relies on `String::from_utf8`: it accepts exactly the valid UTF-8 byte
/// strings, and the string it returns holds the characters they encode.
#[verifier::external_body]
fn string_from_utf8(b: Vec<u8>) -> (r: Option<String>)
    ensures
        r is Some <==> valid_utf8(b@),
        r matches Some(s) ==> s@ == decode_utf8(b@),
{
    String::from_utf8(b).ok()
}

/// Reads a word at `pos`.
pub fn read_word(b: &[u8], pos: usize) -> (r: Option<(u64, usize)>)
    requires
        pos <= b@.len(),
    ensures
        r matches Some((x, p)) ==> p == pos + 8 && p <= b@.len() && tail(b@, pos as int) == word(x) + tail(b@, p as int),
        forall|y: u64, rest: Seq<u8>|
            #![trigger word(y) + rest]
            tail(b@, pos as int) == word(y) + rest ==> r == Some((y, (pos + 8) as usize)) && rest
                == tail(b@, pos + 8),
{
    proof {
        lemma_auto_spec_u64_to_from_le_bytes();
    }
    if b.len() - pos < 8 {
        proof {
            assert forall|y: u64, rest: Seq<u8>|
                #![trigger word(y) + rest]
                tail(b@, pos as int) != word(y) + rest by {
                assert(word(y).len() == 8);
                assert(tail(b@, pos as int).len() < (word(y) + rest).len());
            }
        }
        return None;
    }
    let s = slice_subrange(b, pos, pos + 8);
    let x = u64_from_le_bytes(s);
    proof {
        assert(tail(b@, pos as int) =~= s@ + tail(b@, pos + 8));
        assert forall|y: u64, rest: Seq<u8>|
            #![trigger word(y) + rest]
            tail(b@, pos as int) == word(y) + rest implies x == y && rest == tail(b@, pos + 8) by {
            assert(word(y).len() == 8);
            assert(s@ =~= (word(y) + rest).subrange(0, 8));
            assert(s@ =~= word(y));
            assert(rest =~= (word(y) + rest).subrange(8, (word(y) + rest).len() as int));
        }
    }
    Some((x, pos + 8))
}

/// Reads a text at `pos`.
pub fn read_text(b: &[u8], pos: usize) -> (r: Option<(String, usize)>)
    requires
        pos <= b@.len(),
    ensures
        r matches Some((s, p)) ==> pos <= p <= b@.len() && tail(b@, pos as int) == text(s@) + tail(
            b@,
            p as int,
        ),
        forall|t: Seq<char>, rest: Seq<u8>|
            #![trigger text(t) + rest]
            tail(b@, pos as int) == text(t) + rest ==> (r matches Some((s, p)) && s@ == t && rest
                == tail(b@, p as int)),
{
    let (n, p1) = match read_word(b, pos) {
        Some(x) => x,
        None => {
            proof {
                assert forall|t: Seq<char>, rest: Seq<u8>|
                    #![trigger text(t) + rest]
                    tail(b@, pos as int) != text(t) + rest by {
                    let e = encode_utf8(t);
                    assert(text(t) + rest =~= word(e.len() as u64) + (e + rest));
                }
            }
            return None;
        },
    };
    let avail = b.len() - p1;
    if (avail as u64) < n {
        proof {
            assert forall|t: Seq<char>, rest: Seq<u8>|
                #![trigger text(t) + rest]
                tail(b@, pos as int) != text(t) + rest by {
                let e = encode_utf8(t);
                assert(text(t) + rest =~= word(e.len() as u64) + (e + rest));
                if tail(b@, pos as int) == text(t) + rest {
                    assert(tail(b@, p1 as int) == e + rest);
                    assert(tail(b@, p1 as int).len() == avail);
                }
            }
        }
        return None;
    }
    let end = p1 + n as usize;
    let bytes = slice_to_vec(slice_subrange(b, p1, end));
    let ghost piece = bytes@;
    proof {
        assert(tail(b@, p1 as int) =~= piece + tail(b@, end as int));
    }
    match string_from_utf8(bytes) {
        Some(s) => {
            proof {
                assert(tail(b@, pos as int) =~= text(s@) + tail(b@, end as int));
                assert forall|t: Seq<char>, rest: Seq<u8>|
                    #![trigger text(t) + rest]
                    tail(b@, pos as int) == text(t) + rest implies s@ == t && rest == tail(
                        b@,
                        end as int,
                    ) by {
                    let e = encode_utf8(t);
                    assert(text(t) + rest =~= word(e.len() as u64) + (e + rest));
                    assert(tail(b@, p1 as int) == e + rest);
                    assert(e.len() <= avail);
                    assert(piece =~= (e + rest).subrange(0, n as int));
                    assert(piece =~= e);
                    assert(rest =~= (e + rest).subrange(n as int, (e + rest).len() as int));
                }
            }
            Some((s, end))
        },
        None => {
            proof {
                assert forall|t: Seq<char>, rest: Seq<u8>|
                    #![trigger text(t) + rest]
                    tail(b@, pos as int) != text(t) + rest by {
                    let e = encode_utf8(t);
                    assert(text(t) + rest =~= word(e.len() as u64) + (e + rest));
                    if tail(b@, pos as int) == text(t) + rest {
                        assert(tail(b@, p1 as int) == e + rest);
                        assert(piece =~= (e + rest).subrange(0, n as int));
                        assert(piece =~= e);
                    }
                }
            }
            None
        },
    }
}

/// Reads a list of texts at `pos`.
pub fn read_text_list(b: &[u8], pos: usize) -> (r: Option<(Vec<String>, usize)>)
    requires
        pos <= b@.len(),
    ensures
        r matches Some((l, p)) ==> pos <= p <= b@.len() && tail(b@, pos as int) == text_list(
            l.deep_view(),
        ) + tail(b@, p as int),
        forall|t: Seq<Seq<char>>, rest: Seq<u8>|
            #![trigger text_list(t) + rest]
            tail(b@, pos as int) == text_list(t) + rest ==> (r matches Some((l, p)) && l.deep_view()
                == t && rest == tail(b@, p as int)),
{
    let (n, start) = match read_word(b, pos) {
        Some(x) => x,
        None => {
            proof {
                assert forall|t: Seq<Seq<char>>, rest: Seq<u8>|
                    #![trigger text_list(t) + rest]
                    tail(b@, pos as int) != text_list(t) + rest by {
                    assert(text_list(t) + rest =~= word(t.len() as u64) + (text_run(t) + rest));
                }
            }
            return None;
        },
    };
    let blen = b.len();
    proof {
        assert forall|t: Seq<Seq<char>>, rest: Seq<u8>|
            #![trigger text_list(t) + rest]
            tail(b@, pos as int) == text_list(t) + rest implies t.len() == n && tail(
                b@,
                start as int,
            ) == text_run(t) + rest by {
            assert(text_list(t) + rest =~= word(t.len() as u64) + (text_run(t) + rest));
            lemma_text_run_len(t);
            assert(tail(b@, start as int).len() <= blen);
            assert(t.len() <= blen);
        }
    }
    let mut l: Vec<String> = Vec::new();
    proof {
        assert(l.deep_view() =~= Seq::<Seq<char>>::empty());
    }
    let mut p: usize = start;
    let mut i: u64 = 0;
    proof {
        assert forall|t: Seq<Seq<char>>, rest: Seq<u8>|
            #![trigger text_list(t) + rest]
            tail(b@, pos as int) == text_list(t) + rest implies t.len() == n && l.deep_view()
                == t.take(0) && tail(b@, p as int) == text_run(t.skip(0)) + rest by {
            assert(t.skip(0) =~= t);
            assert(t.take(0) =~= Seq::<Seq<char>>::empty());
        }
        assert(text_run(l.deep_view()) + tail(b@, p as int) =~= tail(b@, start as int));
    }
    while i < n
        invariant
            start <= p <= b@.len(),
            i <= n,
            l@.len() == i,
            tail(b@, start as int) == text_run(l.deep_view()) + tail(b@, p as int),
            forall|t: Seq<Seq<char>>, rest: Seq<u8>|
                #![trigger text_list(t) + rest]
                tail(b@, pos as int) == text_list(t) + rest ==> t.len() == n && l.deep_view()
                    == t.take(i as int) && tail(b@, p as int) == text_run(t.skip(i as int)) + rest,
        decreases n - i,
    {
        let ghost old_p = p;
        let ghost old_l = l.deep_view();
        match read_text(b, p) {
            Some((s, q)) => {
                l.push(s);
                p = q;
                proof {
                    assert(l.deep_view().drop_last() =~= old_l);
                    assert(tail(b@, start as int) =~= text_run(l.deep_view()) + tail(b@, p as int));
                    assert forall|t: Seq<Seq<char>>, rest: Seq<u8>|
                        #![trigger text_list(t) + rest]
                        tail(b@, pos as int) == text_list(t) + rest implies t.len() == n
                            && l.deep_view() == t.take(i + 1) && tail(b@, p as int) == text_run(
                            t.skip(i + 1),
                        ) + rest by {
                        lemma_text_run_split(t, i as int);
                        assert(text_run(t.skip(i as int)) + rest =~= text(t[i as int]) + (
                        text_run(t.skip(i + 1)) + rest));
                        assert(l.deep_view() =~= t.take(i + 1));
                    }
                }
            },
            None => {
                proof {
                    assert forall|t: Seq<Seq<char>>, rest: Seq<u8>|
                        #![trigger text_list(t) + rest]
                        tail(b@, pos as int) != text_list(t) + rest by {
                        if tail(b@, pos as int) == text_list(t) + rest {
                            lemma_text_run_split(t, i as int);
                            assert(text_run(t.skip(i as int)) + rest =~= text(t[i as int]) + (
                            text_run(t.skip(i + 1)) + rest));
                        }
                    }
                }
                return None;
            },
        }
        i = i + 1;
    }
    proof {
        assert(tail(b@, pos as int) =~= text_list(l.deep_view()) + tail(b@, p as int));
        assert forall|t: Seq<Seq<char>>, rest: Seq<u8>|
            #![trigger text_list(t) + rest]
            tail(b@, pos as int) == text_list(t) + rest implies l.deep_view() == t && rest == tail(
                b@,
                p as int,
            ) by {
            assert(t.take(n as int) =~= t);
            assert(t.skip(n as int) =~= Seq::<Seq<char>>::empty());
            assert(text_run(Seq::<Seq<char>>::empty()) + rest =~= rest);
        }
    }
    Some((l, p))
}

} // verus!
