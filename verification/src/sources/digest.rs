//! Whether what was downloaded is what the release published.

use vstd::prelude::*;

use crate::failure::Failure;
use crate::strings;
use crate::text;

verus! {

/// The SHA-256 hash of some bytes.
pub uninterp spec fn sha256_of(data: Seq<u8>) -> Seq<u8>;

/// `sha2::Digest::digest` for `sha2::Sha256`: the hash of the bytes. It is
/// claimed to depend on the bytes alone and to have 32 bytes itself.
#[verifier::external_body]
fn sha256(data: &Vec<u8>) -> (r: Vec<u8>)
    ensures
        r@ == sha256_of(data@),
        r@.len() == 32,
{
    <sha2::Sha256 as sha2::Digest>::digest(data).to_vec()
}

pub open spec fn hex_char(n: nat) -> char {
    if n < 10 {
        text::digit_char(n)
    } else if n == 10 {
        'a'
    } else if n == 11 {
        'b'
    } else if n == 12 {
        'c'
    } else if n == 13 {
        'd'
    } else if n == 14 {
        'e'
    } else {
        'f'
    }
}

/// Bytes as two lower-case hexadecimal digits each.
pub open spec fn hex(bytes: Seq<u8>) -> Seq<char>
    decreases bytes.len(),
{
    if bytes.len() == 0 {
        seq![]
    } else {
        hex(bytes.drop_last()).push(hex_char((bytes.last() / 16) as nat)).push(
            hex_char((bytes.last() % 16) as nat),
        )
    }
}

fn hex_digit(n: u8) -> (c: char)
    requires
        n < 16,
    ensures
        c == hex_char(n as nat),
{
    match n {
        0 => '0',
        1 => '1',
        2 => '2',
        3 => '3',
        4 => '4',
        5 => '5',
        6 => '6',
        7 => '7',
        8 => '8',
        9 => '9',
        10 => 'a',
        11 => 'b',
        12 => 'c',
        13 => 'd',
        14 => 'e',
        _ => 'f',
    }
}

pub fn to_hex(bytes: &Vec<u8>) -> (r: String)
    ensures
        r@ == hex(bytes@),
{
    let mut out = String::new();
    let mut i: usize = 0;
    assert(bytes@.take(0) =~= seq![]);
    while i < bytes.len()
        invariant
            i <= bytes.len(),
            out@ == hex(bytes@.take(i as int)),
        decreases bytes.len() - i,
    {
        let b = bytes[i];
        out.push(hex_digit(b / 16));
        out.push(hex_digit(b % 16));
        i += 1;
        assert(bytes@.take(i as int).drop_last() =~= bytes@.take(i - 1));
    }
    assert(bytes@.take(i as int) =~= bytes@);
    out
}

/// What a published digest says of a hash: an error if it is another one, and
/// a warning if the digest is of a kind that cannot be compared.
pub open spec fn digest_verdict(digest: Option<Seq<char>>, actual: Seq<u8>) -> Result<
    Option<Seq<char>>,
    Seq<Seq<char>>,
> {
    match digest {
        None => Ok(None),
        Some(digest) => {
            let lead = "sha256:"@;
            if !lead.is_prefix_of(digest) {
                Ok(
                    Some(
                        "warning: unrecognized asset digest `"@ + digest
                            + "`, skipping hash check"@,
                    ),
                )
            } else {
                let wanted = digest.skip(lead.len() as int);
                if text::eq_ignore_case(wanted, hex(actual)) {
                    Ok(None)
                } else {
                    Err(seq!["expected "@ + wanted + ", got "@ + hex(actual)])
                }
            }
        },
    }
}

/// The outcome of a check that may warn.
pub open spec fn warned(r: Result<Option<String>, Failure>) -> Result<
    Option<Seq<char>>,
    Seq<Seq<char>>,
> {
    match r {
        Ok(w) => Ok(text::opt_text(w)),
        Err(f) => Err(f@),
    }
}

/// Compares a hash with a published digest. A missing digest passes, and one
/// of another algorithm passes with a warning.
pub fn verify_digest(digest: Option<&str>, actual: &Vec<u8>) -> (r: Result<
    Option<String>,
    Failure,
>)
    ensures
        warned(r) == digest_verdict(text::opt_str(digest), actual@),
{
    let digest = match digest {
        Some(digest) => digest,
        None => {
            return Ok(None);
        },
    };
    let wanted = match strings::strip_prefix(digest, "sha256:") {
        Some(wanted) => wanted,
        None => {
            return Ok(
                Some(
                    strings::cat3(
                        "warning: unrecognized asset digest `",
                        digest,
                        "`, skipping hash check",
                    ),
                ),
            );
        },
    };
    let actual_hex = to_hex(actual);
    if strings::eq_ignore_case(wanted, actual_hex.as_str()) {
        Ok(None)
    } else {
        Err(Failure::new(strings::cat4("expected ", wanted, ", got ", actual_hex.as_str())))
    }
}

/// What is said of a download with a size and a hash.
pub open spec fn download_verdict(
    url: Seq<char>,
    dest: Seq<char>,
    size: nat,
    hash: Seq<u8>,
    expected_size: u64,
    digest: Option<Seq<char>>,
) -> Result<Option<Seq<char>>, Seq<Seq<char>>> {
    if size != expected_size {
        Err(
            seq![
                "downloaded "@ + text::decimal(size) + " bytes from "@ + url + ", expected "@
                    + text::decimal(expected_size as nat)
                    + " (truncated download or asset changed upstream)"@,
            ],
        )
    } else {
        match digest_verdict(digest, hash) {
            Ok(warning) => Ok(warning),
            Err(chain) => Err(
                seq!["sha256 of "@ + dest + " doesn't match the release's digest"@] + chain,
            ),
        }
    }
}

/// Judges a download by its size and its hash.
pub fn judge_download(
    url: &str,
    dest: &str,
    size: u64,
    hash: &Vec<u8>,
    expected_size: u64,
    digest: Option<&str>,
) -> (r: Result<Option<String>, Failure>)
    ensures
        warned(r) == download_verdict(
            url@,
            dest@,
            size as nat,
            hash@,
            expected_size,
            text::opt_str(digest),
        ),
{
    if size != expected_size {
        let mut message = strings::cat5(
            "downloaded ",
            strings::decimal(size).as_str(),
            " bytes from ",
            url,
            ", expected ",
        );
        message.append(strings::decimal(expected_size).as_str());
        message.append(" (truncated download or asset changed upstream)");
        return Err(Failure::new(message));
    }
    match verify_digest(digest, hash) {
        Ok(warning) => Ok(warning),
        Err(f) => Err(
            f.context(strings::cat3("sha256 of ", dest, " doesn't match the release's digest")),
        ),
    }
}

/// Checks what was downloaded: its size always, its SHA-256 hash where the
/// host published one.
pub fn check_download(
    url: &str,
    dest: &str,
    data: &Vec<u8>,
    expected_size: u64,
    digest: Option<&str>,
) -> (r: Result<Option<String>, Failure>)
    ensures
        warned(r) == download_verdict(
            url@,
            dest@,
            data@.len(),
            sha256_of(data@),
            expected_size,
            text::opt_str(digest),
        ),
{
    let size = data.len() as u64;
    let hash = sha256(data);
    judge_download(url, dest, size, &hash, expected_size, digest)
}

/// A download passes only if its size is the published one, and with a
/// SHA-256 digest only if the hash is the published one too.
pub proof fn lemma_passing_download(
    url: Seq<char>,
    dest: Seq<char>,
    size: nat,
    hash: Seq<u8>,
    expected_size: u64,
    digest: Option<Seq<char>>,
)
    ensures
        download_verdict(url, dest, size, hash, expected_size, digest) is Ok <==> size
            == expected_size && match digest {
            Some(d) => "sha256:"@.is_prefix_of(d) ==> text::eq_ignore_case(
                d.skip("sha256:"@.len() as int),
                hex(hash),
            ),
            None => true,
        },
{
}

/// Different bytes have different digits: a hash is known by how it is written.
pub proof fn lemma_hex_tells_apart(a: Seq<u8>, b: Seq<u8>)
    requires
        hex(a) == hex(b),
    ensures
        a == b,
    decreases a.len(),
{
    lemma_hex_len(a);
    lemma_hex_len(b);
    if a.len() > 0 {
        let n = hex(a).len();
        let x = a.last();
        let y = b.last();
        assert(hex(a)[n - 1] == hex_char((x % 16) as nat));
        assert(hex(b)[n - 1] == hex_char((y % 16) as nat));
        assert(hex(a)[n - 2] == hex_char((x / 16) as nat));
        assert(hex(b)[n - 2] == hex_char((y / 16) as nat));
        lemma_hex_char((x % 16) as nat, (y % 16) as nat);
        lemma_hex_char((x / 16) as nat, (y / 16) as nat);
        assert(x == 16 * (x / 16) + x % 16);
        assert(y == 16 * (y / 16) + y % 16);
        assert(hex(a.drop_last()) =~= hex(a).take(n - 2));
        assert(hex(b.drop_last()) =~= hex(b).take(n - 2));
        lemma_hex_tells_apart(a.drop_last(), b.drop_last());
        assert(a =~= a.drop_last().push(x));
        assert(b =~= b.drop_last().push(y));
    } else {
        assert(a =~= b);
    }
}

/// Each byte takes two digits.
pub proof fn lemma_hex_len(a: Seq<u8>)
    ensures
        hex(a).len() == 2 * a.len(),
    decreases a.len(),
{
    if a.len() > 0 {
        lemma_hex_len(a.drop_last());
    }
}

proof fn lemma_hex_char(m: nat, n: nat)
    requires
        m < 16,
        n < 16,
        hex_char(m) == hex_char(n),
    ensures
        m == n,
{
}

/// A published digest is held against the hash whenever it is of a kind that
/// can be: another hash is an error, and a warning comes exactly for another
/// kind of digest.
pub proof fn lemma_digest_is_checked(digest: Seq<char>, actual: Seq<u8>)
    ensures
        digest_verdict(None, actual) == Ok::<Option<Seq<char>>, Seq<Seq<char>>>(None),
        digest_verdict(Some(digest), actual) is Err <==> "sha256:"@.is_prefix_of(digest)
            && !text::eq_ignore_case(digest.skip("sha256:"@.len() as int), hex(actual)),
        digest_verdict(Some(digest), actual) is Ok ==> (digest_verdict(
            Some(digest),
            actual,
        )->Ok_0 is Some <==> !"sha256:"@.is_prefix_of(digest)),
{
}

/// Each byte is written as its two hexadecimal digits, the greater one first,
/// in lower case.
pub proof fn lemma_hex_digits(a: Seq<u8>, i: int)
    requires
        0 <= i < a.len(),
    ensures
        hex(a).len() == 2 * a.len(),
        digit_value(hex(a)[2 * i]) == a[i] as int / 16,
        digit_value(hex(a)[2 * i + 1]) == a[i] as int % 16,
    decreases a.len(),
{
    lemma_hex_len(a);
    lemma_hex_len(a.drop_last());
    if i < a.len() - 1 {
        lemma_hex_digits(a.drop_last(), i);
        assert(hex(a)[2 * i] == hex(a.drop_last())[2 * i]);
        assert(hex(a)[2 * i + 1] == hex(a.drop_last())[2 * i + 1]);
    }
}

/// What a lower-case hexadecimal digit stands for.
pub open spec fn digit_value(c: char) -> int {
    if '0' <= c && c <= '9' {
        c as int - '0' as int
    } else if 'a' <= c && c <= 'f' {
        c as int - 'a' as int + 10
    } else {
        -1
    }
}

/// A failed check says what was expected and what came: the size before the
/// hash, and the hash under the name of the file.
pub proof fn lemma_failed_check_is_told(
    url: Seq<char>,
    dest: Seq<char>,
    size: nat,
    hash: Seq<u8>,
    expected_size: u64,
    wanted: Seq<char>,
)
    ensures
        size != expected_size ==> download_verdict(
            url,
            dest,
            size,
            hash,
            expected_size,
            Some("sha256:"@ + wanted),
        ) == Err::<Option<Seq<char>>, Seq<Seq<char>>>(
            seq![
                "downloaded "@ + text::decimal(size) + " bytes from "@ + url + ", expected "@
                    + text::decimal(expected_size as nat)
                    + " (truncated download or asset changed upstream)"@,
            ],
        ),
        size == expected_size && !text::eq_ignore_case(wanted, hex(hash)) ==> download_verdict(
            url,
            dest,
            size,
            hash,
            expected_size,
            Some("sha256:"@ + wanted),
        ) == Err::<Option<Seq<char>>, Seq<Seq<char>>>(
            seq![
                "sha256 of "@ + dest + " doesn't match the release's digest"@,
                "expected "@ + wanted + ", got "@ + hex(hash),
            ],
        ),
{
    let digest = "sha256:"@ + wanted;
    assert(digest.take("sha256:"@.len() as int) =~= "sha256:"@);
    assert(digest.skip("sha256:"@.len() as int) =~= wanted);
    assert(seq!["sha256 of "@ + dest + " doesn't match the release's digest"@] + seq![
        "expected "@ + wanted + ", got "@ + hex(hash),
    ] =~= seq![
        "sha256 of "@ + dest + " doesn't match the release's digest"@,
        "expected "@ + wanted + ", got "@ + hex(hash),
    ]);
}

} // verus!
