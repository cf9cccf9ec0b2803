//! The first bytes of a stored index: four bytes that say what it is, and the
//! version of the format.
use crate::error::LoadError;
use vstd::prelude::*;

verus! {

/// Version of the format.
pub const FORMAT_VERSION: u8 = 2;

/// The first bytes of a positional index: `TVPI`.
pub open spec fn index_magic() -> Seq<u8> {
    seq![0x54u8, 0x56u8, 0x50u8, 0x49u8]
}

/// The first bytes of an id-addressed index: `TVIM`.
pub open spec fn id_map_magic() -> Seq<u8> {
    seq![0x54u8, 0x56u8, 0x49u8, 0x4Du8]
}

/// The header of what starts with `magic`.
pub open spec fn header(magic: Seq<u8>) -> Seq<u8> {
    magic.push(FORMAT_VERSION)
}

/// The header of a positional index.
pub fn index_header() -> (bytes: Vec<u8>)
    ensures
        bytes@ == header(index_magic()),
{
    let bytes: Vec<u8> = vec![0x54, 0x56, 0x50, 0x49, FORMAT_VERSION];
    assert(bytes@ =~= header(index_magic()));
    bytes
}

/// The header of an id-addressed index.
pub fn id_map_header() -> (bytes: Vec<u8>)
    ensures
        bytes@ == header(id_map_magic()),
{
    let bytes: Vec<u8> = vec![0x54, 0x56, 0x49, 0x4D, FORMAT_VERSION];
    assert(bytes@ =~= header(id_map_magic()));
    bytes
}

/// What checking the first bytes gives: they have to be `magic`, and the next byte
/// has to be there and be the version of the format.
pub open spec fn header_result(bytes: Seq<u8>, magic: Seq<u8>) -> Result<(), LoadError> {
    if !magic.is_prefix_of(bytes) {
        Err(LoadError::WrongMagic)
    } else if bytes.len() == magic.len() || bytes[magic.len() as int] != FORMAT_VERSION {
        Err(LoadError::UnsupportedVersion)
    } else {
        Ok(())
    }
}

/// Checks that `bytes` start with `magic` and then the version of the format.
pub fn check_header(bytes: &[u8], magic: &[u8]) -> (r: Result<(), LoadError>)
    ensures
        r == header_result(bytes@, magic@),
{
    let n: usize = magic.len();
    if bytes.len() < n {
        return Err(LoadError::WrongMagic);
    }
    let mut i: usize = 0;
    while i < n
        invariant
            i <= n,
            n == magic@.len(),
            n <= bytes@.len(),
            forall|j: int| 0 <= j < i ==> #[trigger] bytes@[j] == magic@[j],
        decreases n - i,
    {
        if bytes[i] != magic[i] {
            assert(bytes@.subrange(0, n as int)[i as int] != magic@[i as int]);
            return Err(LoadError::WrongMagic);
        }
        i += 1;
    }
    assert(bytes@.subrange(0, n as int) =~= magic@);
    if bytes.len() == n || bytes[n] != FORMAT_VERSION {
        return Err(LoadError::UnsupportedVersion);
    }
    Ok(())
}

/// Checks the header of a positional index.
pub fn check_index_header(bytes: &[u8]) -> (r: Result<(), LoadError>)
    ensures
        r == header_result(bytes@, index_magic()),
{
    let magic: Vec<u8> = vec![0x54, 0x56, 0x50, 0x49];
    assert(magic@ =~= index_magic());
    check_header(bytes, magic.as_slice())
}

/// Checks the header of an id-addressed index.
pub fn check_id_map_header(bytes: &[u8]) -> (r: Result<(), LoadError>)
    ensures
        r == header_result(bytes@, id_map_magic()),
{
    let magic: Vec<u8> = vec![0x54, 0x56, 0x49, 0x4D];
    assert(magic@ =~= id_map_magic());
    check_header(bytes, magic.as_slice())
}

/// Bytes are accepted iff they are the header and something behind it.
pub proof fn law_header_is_accepted(bytes: Seq<u8>, magic: Seq<u8>)
    ensures
        header_result(bytes, magic) is Ok <==> header(magic).is_prefix_of(bytes),
        header_result(bytes, magic) is Ok <==> exists|body: Seq<u8>| bytes == #[trigger] (header(magic) + body),
{
    let n = magic.len() as int;
    if header_result(bytes, magic) is Ok {
        assert(bytes.subrange(0, n + 1) =~= header(magic)) by {
            assert(bytes.subrange(0, n) == magic);
            assert forall|i: int| 0 <= i < n implies #[trigger] bytes[i] == magic[i] by {
                assert(bytes.subrange(0, n)[i] == magic[i]);
            }
        }
        let body = bytes.subrange(n + 1, bytes.len() as int);
        assert(bytes =~= header(magic) + body);
    }
    if header(magic).is_prefix_of(bytes) {
        assert(bytes.subrange(0, n) =~= bytes.subrange(0, n + 1).drop_last());
        assert(header(magic).drop_last() =~= magic);
        assert(bytes.subrange(0, n + 1)[n] == FORMAT_VERSION);
    }
    assert forall|body: Seq<u8>| bytes == #[trigger] (header(magic) + body) implies header(magic).is_prefix_of(bytes) by {
        assert(bytes.subrange(0, n + 1) =~= header(magic));
    }
}

/// The header is `magic` and then the version, which is two. The two kinds of
/// index start with the letters TVPI and TVIM.
pub proof fn law_header_bytes(magic: Seq<u8>)
    ensures
        header(magic) == magic.push(2),
        header(index_magic()) == seq![0x54u8, 0x56u8, 0x50u8, 0x49u8, 2u8],
        header(id_map_magic()) == seq![0x54u8, 0x56u8, 0x49u8, 0x4Du8, 2u8],
{
    assert(header(index_magic()) =~= seq![0x54u8, 0x56u8, 0x50u8, 0x49u8, 2u8]);
    assert(header(id_map_magic()) =~= seq![0x54u8, 0x56u8, 0x49u8, 0x4Du8, 2u8]);
}

/// Which error is given: that of the magic iff the first bytes are not `magic`, and
/// that of the version iff they are and the next byte is missing or is not two.
pub proof fn law_header_errors(bytes: Seq<u8>, magic: Seq<u8>)
    ensures
        header_result(bytes, magic) == Err::<(), LoadError>(LoadError::WrongMagic) <==> bytes.len() < magic.len()
            || exists|i: int| 0 <= i < magic.len() && #[trigger] bytes[i] != magic[i],
        header_result(bytes, magic) == Err::<(), LoadError>(LoadError::UnsupportedVersion) <==> {
            &&& bytes.len() >= magic.len()
            &&& forall|i: int| 0 <= i < magic.len() ==> #[trigger] bytes[i] == magic[i]
            &&& bytes.len() == magic.len() || bytes[magic.len() as int] != 2
        },
        header_result(bytes, magic) is Ok <==> {
            &&& bytes.len() > magic.len()
            &&& forall|i: int| 0 <= i < magic.len() ==> #[trigger] bytes[i] == magic[i]
            &&& bytes[magic.len() as int] == 2
        },
{
    let n = magic.len() as int;
    if bytes.len() >= n {
        let first = bytes.subrange(0, n);
        assert(forall|i: int| 0 <= i < n ==> #[trigger] first[i] == bytes[i]);
        if forall|i: int| 0 <= i < n ==> #[trigger] bytes[i] == magic[i] {
            assert(first =~= magic);
        } else {
            let i = choose|i: int| 0 <= i < n && #[trigger] bytes[i] != magic[i];
            assert(first[i] != magic[i]);
        }
    }
}

/// Neither kind of index is taken for the other.
pub proof fn law_kinds_are_told_apart(body: Seq<u8>)
    ensures
        header_result(header(index_magic()) + body, id_map_magic()) == Err::<(), LoadError>(LoadError::WrongMagic),
        header_result(header(id_map_magic()) + body, index_magic()) == Err::<(), LoadError>(LoadError::WrongMagic),
{
    let a = header(index_magic()) + body;
    let b = header(id_map_magic()) + body;
    assert(a.subrange(0, 4)[2] == 0x50);
    assert(b.subrange(0, 4)[2] == 0x49);
}

} // verus!
