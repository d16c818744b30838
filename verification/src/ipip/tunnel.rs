//! Tunnel device names: `tun-` and the first 11 hex digits of the MD5 digest
//! of the Node name, which keeps every name within the 15 characters that
//! Linux allows for an interface.
use vstd::prelude::*;
use vstd::string::StringExecFns;

verus! {

/// The MD5 digest of `data`, as `md5::compute` returns it.
pub uninterp spec fn md5_digest(data: Seq<u8>) -> Seq<u8>;

/// `md5::compute`: the 16 bytes of the MD5 digest of `data`. The digest itself
/// is not stated; it is named `md5_digest`, a function of `data` alone.
#[verifier::external_body]
fn md5_compute(data: &[u8]) -> (digest: Vec<u8>)
    ensures
        digest@ == md5_digest(data@),
        digest@.len() == 16,
{
    md5::compute(data).0.to_vec()
}

/// The lower-case hexadecimal digit of `n`, for `n` below 16.
pub open spec fn hex_char(n: u8) -> char {
    "0123456789abcdef"@[n as int]
}

/// Lower-case hexadecimal of each byte, high digit first, as `{:x}` prints an
/// `md5::Digest`.
pub open spec fn lower_hex(bytes: Seq<u8>) -> Seq<char>
    decreases bytes.len(),
{
    if bytes.len() == 0 {
        Seq::empty()
    } else {
        seq![hex_char(bytes[0] / 16), hex_char(bytes[0] % 16)] + lower_hex(bytes.drop_first())
    }
}

/// The tunnel name for a digest: `tun-` and its first 11 hex digits.
pub open spec fn tunnel_name_of_digest(digest: Seq<u8>) -> Seq<char> {
    "tun-"@ + lower_hex(digest).take(11)
}

/// The tunnel name for a Node name: the digest is that of its UTF-8 bytes.
pub open spec fn tunnel_name(node_name: Seq<char>) -> Seq<char> {
    tunnel_name_of_digest(md5_digest(vstd::utf8::encode_utf8(node_name)))
}

pub proof fn lemma_lower_hex(bytes: Seq<u8>)
    ensures
        lower_hex(bytes).len() == 2 * bytes.len(),
        forall|i: int|
            0 <= i < bytes.len() ==> lower_hex(bytes)[2 * i] == hex_char(#[trigger] bytes[i] / 16)
                && lower_hex(bytes)[2 * i + 1] == hex_char(bytes[i] % 16),
    decreases bytes.len(),
{
    if bytes.len() > 0 {
        let t = bytes.drop_first();
        lemma_lower_hex(t);
        assert forall|i: int| 0 <= i < bytes.len() implies lower_hex(bytes)[2 * i] == hex_char(
            #[trigger] bytes[i] / 16,
        ) && lower_hex(bytes)[2 * i + 1] == hex_char(bytes[i] % 16) by {
            if i > 0 {
                assert(bytes[i] == t[i - 1]);
                assert(lower_hex(bytes)[2 * i] == lower_hex(t)[2 * (i - 1)]);
                assert(lower_hex(bytes)[2 * i + 1] == lower_hex(t)[2 * (i - 1) + 1]);
            }
        }
    }
}

/// The one-character string of the hex digit of `n`.
fn hex_str(n: u8) -> (r: &'static str)
    requires
        n < 16,
    ensures
        r@ == seq![hex_char(n)],
{
    let digits = "0123456789abcdef";
    proof {
        reveal_strlit("0123456789abcdef");
    }
    let r = digits.substring_char(n as usize, n as usize + 1);
    assert(r@ =~= seq![hex_char(n)]);
    r
}

/// The tunnel name for an MD5 digest: `tun-` and its first 11 hex digits.
pub fn tunnel_name_from_digest(digest: &[u8]) -> (r: String)
    requires
        digest@.len() == 16,
    ensures
        r@ == tunnel_name_of_digest(digest@),
        r@.len() == 15,
{
    proof {
        reveal_strlit("tun-");
        lemma_lower_hex(digest@);
    }
    let mut name = "tun-".to_owned();
    let mut i: usize = 0;
    while i < 5
        invariant
            i <= 5,
            digest@.len() == 16,
            lower_hex(digest@).len() == 32,
            name@ == "tun-"@ + lower_hex(digest@).take(2 * i),
        decreases 5 - i,
    {
        let b = digest[i];
        proof {
            lemma_lower_hex(digest@);
        }
        assert(lower_hex(digest@)[2 * i] == hex_char(digest@[i as int] / 16));
        assert(lower_hex(digest@)[2 * i + 1] == hex_char(digest@[i as int] % 16));
        name.append(hex_str(b / 16));
        name.append(hex_str(b % 16));
        assert(lower_hex(digest@).take(2 * i + 2) =~= lower_hex(digest@).take(2 * i) + seq![
            hex_char(b / 16),
            hex_char(b % 16),
        ]);
        i = i + 1;
    }
    name.append(hex_str(digest[5] / 16));
    assert(lower_hex(digest@)[10] == hex_char(digest@[5] / 16));
    assert(lower_hex(digest@).take(11) =~= lower_hex(digest@).take(10) + seq![
        hex_char(digest@[5] / 16),
    ]);
    name
}

/// The tunnel device name for a Node: `tun-` and the first 11 hex digits of the
/// MD5 digest of its name; always 15 characters.
pub fn get_tunnel_name(node_name: &str) -> (r: String)
    ensures
        r@ == tunnel_name(node_name@),
        r@.len() == 15,
{
    let digest = md5_compute(node_name.as_bytes());
    tunnel_name_from_digest(digest.as_slice())
}

} // verus!
