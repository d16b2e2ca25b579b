//! Rules for client-relative paths and the realm address written to `realmlist.wtf`.
use crate::bindings::{debug_str, debug_text};
use crate::text::{byte_vecs_view, join2, join3, lemma_split_nonempty, owned, split_bytes, split_seq};
use vstd::prelude::*;
use vstd::string::*;
use vstd::utf8::encode_utf8;

verus! {

/// The bytes of a string (`str::as_bytes`).
pub open spec fn bytes_of(s: Seq<char>) -> Seq<u8> {
    encode_utf8(s)
}

/// ASCII-only lowercasing of a byte.
pub open spec fn ascii_lower_byte(b: u8) -> u8 {
    if 65 <= b && b <= 90 {
        (b + 32) as u8
    } else {
        b
    }
}

/// Windows device names that cannot be used as a file name, whatever the extension:
/// `con`, `prn`, `aux`, `nul`, `com1`..`com9` and `lpt1`..`lpt9`, in any letter case.
pub open spec fn reserved_device_name(base: Seq<u8>) -> bool {
    let l = base.map_values(|b: u8| ascii_lower_byte(b));
    ||| l == seq![99u8, 111, 110]
    ||| l == seq![112u8, 114, 110]
    ||| l == seq![97u8, 117, 120]
    ||| l == seq![110u8, 117, 108]
    ||| (l.len() == 4 && (l.take(3) == seq![99u8, 111, 109] || l.take(3) == seq![
        108u8,
        112,
        116,
    ]) && 49 <= l[3] && l[3] <= 57)
}

/// Bytes that Windows refuses in a file name: control bytes and `< > : " | ? *`.
pub open spec fn forbidden_path_byte(b: u8) -> bool {
    b < 32 || b == 60 || b == 62 || b == 58 || b == 34 || b == 124 || b == 63 || b == 42
}

/// A path component that must not be written: empty, `.` or `..`, ending in a space or a dot,
/// a reserved device name before its first dot, or holding a forbidden byte.
pub open spec fn unsafe_component(p: Seq<u8>) -> bool {
    ||| p.len() == 0
    ||| p == seq![46u8]
    ||| p == seq![46u8, 46]
    ||| p.last() == 32
    ||| p.last() == 46
    ||| reserved_device_name(split_seq(p, 46u8)[0])
    ||| exists|i: int| 0 <= i < p.len() && forbidden_path_byte(#[trigger] p[i])
}

/// A safe client-relative path: 1 to 512 ASCII bytes, not starting with `/`, without `\`,
/// and every `/`-separated component safe.
pub open spec fn safe_client_path(b: Seq<u8>) -> bool {
    &&& b.len() != 0
    &&& b.len() <= 512
    &&& forall|i: int| 0 <= i < b.len() ==> #[trigger] b[i] < 128
    &&& b[0] != 47
    &&& forall|i: int| 0 <= i < b.len() ==> #[trigger] b[i] != 92
    &&& forall|k: int|
        0 <= k < split_seq(b, 47u8).len() ==> !unsafe_component(#[trigger] split_seq(b, 47u8)[k])
}

/// The message refusing an unsafe client path.
pub open spec fn unsafe_path_message(value: Seq<char>) -> Seq<char> {
    "Chemin client non sûr : "@ + debug_str(value)
}

fn lower_ascii_byte(b: u8) -> (r: u8)
    ensures
        r == ascii_lower_byte(b),
{
    if b >= 65 && b <= 90 {
        b + 32
    } else {
        b
    }
}

fn is_reserved_device_name(base: &[u8]) -> (r: bool)
    ensures
        r == reserved_device_name(base@),
{
    let mut l: Vec<u8> = Vec::new();
    let mut i: usize = 0;
    while i < base.len()
        invariant
            i <= base@.len(),
            l@ == base@.take(i as int).map_values(|b: u8| ascii_lower_byte(b)),
        decreases base.len() - i,
    {
        l.push(lower_ascii_byte(base[i]));
        assert(base@.take(i + 1).map_values(|b: u8| ascii_lower_byte(b)) == base@.take(
            i as int,
        ).map_values(|b: u8| ascii_lower_byte(b)).push(ascii_lower_byte(base@[i as int])));
        i += 1;
    }
    assert(base@.take(base@.len() as int) == base@);
    let ghost lv = l@;
    if l.len() == 3 {
        let named = (l[0] == 99 && l[1] == 111 && l[2] == 110) || (l[0] == 112 && l[1] == 114
            && l[2] == 110) || (l[0] == 97 && l[1] == 117 && l[2] == 120) || (l[0] == 110 && l[1]
            == 117 && l[2] == 108);
        assert(named == (lv == seq![99u8, 111, 110] || lv == seq![112u8, 114, 110] || lv == seq![
            97u8,
            117,
            120,
        ] || lv == seq![110u8, 117, 108])) by {
            if lv == seq![99u8, 111, 110] {
                assert(lv[0] == 99 && lv[1] == 111 && lv[2] == 110);
            }
            if lv == seq![112u8, 114, 110] {
                assert(lv[0] == 112);
            }
            if lv == seq![97u8, 117, 120] {
                assert(lv[0] == 97);
            }
            if lv == seq![110u8, 117, 108] {
                assert(lv[0] == 110);
            }
            if l[0] == 99 && l[1] == 111 && l[2] == 110 {
                assert(lv =~= seq![99u8, 111, 110]);
            }
            if l[0] == 112 && l[1] == 114 && l[2] == 110 {
                assert(lv =~= seq![112u8, 114, 110]);
            }
            if l[0] == 97 && l[1] == 117 && l[2] == 120 {
                assert(lv =~= seq![97u8, 117, 120]);
            }
            if l[0] == 110 && l[1] == 117 && l[2] == 108 {
                assert(lv =~= seq![110u8, 117, 108]);
            }
        }
        named
    } else if l.len() == 4 {
        let com = l[0] == 99 && l[1] == 111 && l[2] == 109;
        let lpt = l[0] == 108 && l[1] == 112 && l[2] == 116;
        assert(com == (lv.take(3) == seq![99u8, 111, 109])) by {
            if com {
                assert(lv.take(3) =~= seq![99u8, 111, 109]);
            }
            if lv.take(3) == seq![99u8, 111, 109] {
                assert(lv.take(3)[0] == 99 && lv.take(3)[1] == 111 && lv.take(3)[2] == 109);
            }
        }
        assert(lpt == (lv.take(3) == seq![108u8, 112, 116])) by {
            if lpt {
                assert(lv.take(3) =~= seq![108u8, 112, 116]);
            }
            if lv.take(3) == seq![108u8, 112, 116] {
                assert(lv.take(3)[0] == 108 && lv.take(3)[1] == 112 && lv.take(3)[2] == 116);
            }
        }
        (com || lpt) && l[3] >= 49 && l[3] <= 57
    } else {
        false
    }
}

fn is_unsafe_component(p: &[u8]) -> (r: bool)
    ensures
        r == unsafe_component(p@),
{
    if p.len() == 0 {
        return true;
    }
    if p.len() == 1 && p[0] == 46 {
        assert(p@ =~= seq![46u8]);
        return true;
    }
    if p.len() == 2 && p[0] == 46 && p[1] == 46 {
        assert(p@ =~= seq![46u8, 46]);
        return true;
    }
    assert(p@ != seq![46u8] ==> !(p@.len() == 1 && p@[0] == 46)) by {
        if p@.len() == 1 && p@[0] == 46 {
            assert(p@ =~= seq![46u8]);
        }
    }
    assert(p@ != seq![46u8, 46] ==> !(p@.len() == 2 && p@[0] == 46 && p@[1] == 46)) by {
        if p@.len() == 2 && p@[0] == 46 && p@[1] == 46 {
            assert(p@ =~= seq![46u8, 46]);
        }
    }
    let last = p[p.len() - 1];
    if last == 32 || last == 46 {
        return true;
    }
    let dotted = split_bytes(p, 46);
    proof {
        lemma_split_nonempty(p@, 46u8);
    }
    if is_reserved_device_name(dotted[0].as_slice()) {
        return true;
    }
    let mut i: usize = 0;
    while i < p.len()
        invariant
            i <= p@.len(),
            forall|j: int| 0 <= j < i ==> !forbidden_path_byte(#[trigger] p@[j]),
        decreases p.len() - i,
    {
        let b = p[i];
        if b < 32 || b == 60 || b == 62 || b == 58 || b == 34 || b == 124 || b == 63 || b == 42 {
            assert(forbidden_path_byte(p@[i as int]));
            return true;
        }
        i += 1;
    }
    false
}

/// Checks a client-relative path before it is joined to the client directory.
pub fn validate_windows_path(value: &str) -> (r: Result<(), String>)
    ensures
        r is Ok <==> safe_client_path(bytes_of(value@)),
        r matches Err(e) ==> e@ == unsafe_path_message(value@),
{
    let b = value.as_bytes();
    let ghost bv = bytes_of(value@);
    assert(b@ == bv);
    if b.len() == 0 || b.len() > 512 {
        return Err(join2("Chemin client non sûr : ", debug_text(value).as_str()));
    }
    let mut i: usize = 0;
    while i < b.len()
        invariant
            i <= b@.len(),
            b@ == bv,
            bv == bytes_of(value@),
            forall|j: int| 0 <= j < i ==> #[trigger] bv[j] < 128 && bv[j] != 92,
        decreases b.len() - i,
    {
        if b[i] >= 128 || b[i] == 92 {
            if b[i] >= 128 {
                assert(!(bv[i as int] < 128));
            } else {
                assert(!(bv[i as int] != 92));
            }
            assert(!safe_client_path(bv));
            return Err(join2("Chemin client non sûr : ", debug_text(value).as_str()));
        }
        i += 1;
    }
    if b[0] == 47 {
        return Err(join2("Chemin client non sûr : ", debug_text(value).as_str()));
    }
    let parts = split_bytes(b, 47);
    let mut k: usize = 0;
    while k < parts.len()
        invariant
            k <= parts@.len(),
            byte_vecs_view(parts@) == split_seq(bv, 47u8),
            bv == bytes_of(value@),
            forall|j: int| 0 <= j < k ==> !unsafe_component(#[trigger] split_seq(bv, 47u8)[j]),
        decreases parts.len() - k,
    {
        if is_unsafe_component(parts[k].as_slice()) {
            assert(split_seq(bv, 47u8)[k as int] == parts@[k as int]@);
            assert(unsafe_component(split_seq(bv, 47u8)[k as int]));
            assert(k < split_seq(bv, 47u8).len());
            assert(!safe_client_path(bv));
            return Err(join2("Chemin client non sûr : ", debug_text(value).as_str()));
        }
        assert(split_seq(bv, 47u8)[k as int] == parts@[k as int]@);
        k += 1;
    }
    Ok(())
}

/// A realm address that can be written to `realmlist.wtf`: 1 to 253 bytes of ASCII letters,
/// digits, `.` and `-`, neither starting nor ending with `.`.
pub open spec fn valid_realm_address(b: Seq<u8>) -> bool {
    &&& b.len() != 0
    &&& b.len() <= 253
    &&& b[0] != 46
    &&& b.last() != 46
    &&& forall|i: int| 0 <= i < b.len() ==> realm_byte(#[trigger] b[i])
}

/// ASCII letters, digits, `.` and `-`.
pub open spec fn realm_byte(b: u8) -> bool {
    (48 <= b && b <= 57) || (65 <= b && b <= 90) || (97 <= b && b <= 122) || b == 46 || b == 45
}

/// Checks the realm address before it is written to `realmlist.wtf`.
pub fn validate_realm_address(value: &str) -> (r: Result<(), String>)
    ensures
        r is Ok <==> valid_realm_address(bytes_of(value@)),
        r matches Err(e) ==> e@ == "Adresse du realm invalide."@,
{
    let b = value.as_bytes();
    if b.len() == 0 || b.len() > 253 || b[0] == 46 || b[b.len() - 1] == 46 {
        return Err(owned("Adresse du realm invalide."));
    }
    let mut i: usize = 0;
    while i < b.len()
        invariant
            i <= b@.len(),
            b@ == bytes_of(value@),
            forall|j: int| 0 <= j < i ==> realm_byte(#[trigger] b@[j]),
        decreases b.len() - i,
    {
        let c = b[i];
        if !((c >= 48 && c <= 57) || (c >= 65 && c <= 90) || (c >= 97 && c <= 122) || c == 46
            || c == 45) {
            return Err(owned("Adresse du realm invalide."));
        }
        i += 1;
    }
    Ok(())
}

/// The contents written to `Data/frFR/realmlist.wtf`.
pub open spec fn realmlist_spec(realm_address: Seq<char>) -> Seq<char> {
    "set realmlist "@ + realm_address + "\r\n"@
}

/// The line that points the client at the realm (`set realmlist <address>` and CRLF).
pub fn realmlist_contents(realm_address: &str) -> (r: String)
    ensures
        r@ == realmlist_spec(realm_address@),
{
    join3("set realmlist ", realm_address, "\r\n")
}

} // verus!
