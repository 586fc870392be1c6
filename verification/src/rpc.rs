//! Questions to the AUR and what its answers mean.

use crate::package::PackageMeta;
use crate::text;
use vstd::prelude::*;
use vstd::utf8;

verus! {

/// Where the AUR answers.
pub const RPC_BASE: &'static str = "https://aur.archlinux.org/rpc/v5";

/// A byte that stands for itself in the value of a query.
pub open spec fn is_plain(b: u8) -> bool {
    ||| 0x41 <= b <= 0x5a
    ||| 0x61 <= b <= 0x7a
    ||| 0x30 <= b <= 0x39
    ||| b == 0x2d
    ||| b == 0x5f
    ||| b == 0x2e
    ||| b == 0x7e
    ||| b == 0x2b
}

/// Bytes as the value of a query: each stands for itself or is given as its
/// code.
pub open spec fn encoded(bytes: Seq<u8>) -> Seq<char>
    decreases bytes.len(),
{
    if bytes.len() == 0 {
        Seq::empty()
    } else {
        let before = encoded(bytes.drop_last());
        if is_plain(bytes.last()) {
            before.push(bytes.last() as char)
        } else {
            before + text::percent_code(bytes.last())
        }
    }
}

/// Encodes a text as the value of a query. Letters, digits and `-_.~+` stand for
/// themselves, every other byte is given as `%` and two hexadecimal digits.
pub fn urlencode(s: &str) -> (r: String)
    ensures
        r@ == encoded(utf8::encode_utf8(s@)),
{
    let bytes = s.as_bytes();
    let mut out = String::new();
    let mut i: usize = 0;
    while i < bytes.len()
        invariant
            i <= bytes@.len(),
            out@ == encoded(bytes@.take(i as int)),
        decreases bytes@.len() - i,
    {
        let b: u8 = bytes[i];
        proof {
            assert(bytes@.take(i + 1).drop_last() =~= bytes@.take(i as int));
            assert(bytes@.take(i + 1).last() == b);
        }
        if (0x41 <= b && b <= 0x5a) || (0x61 <= b && b <= 0x7a) || (0x30 <= b && b <= 0x39)
            || b == 0x2d || b == 0x5f || b == 0x2e || b == 0x7e || b == 0x2b {
            out.push(b as char);
        } else {
            text::push_percent_code(&mut out, b);
        }
        i += 1;
    }
    proof {
        assert(bytes@.take(bytes@.len() as int) =~= bytes@);
    }
    out
}

/// The query for packages: each name behind `arg[]=`, joined by `&`.
pub open spec fn query_of(names: Seq<Seq<char>>) -> Seq<char>
    decreases names.len(),
{
    if names.len() == 0 {
        Seq::empty()
    } else {
        let item = "arg[]="@ + encoded(utf8::encode_utf8(names.last()));
        if names.len() == 1 {
            item
        } else {
            query_of(names.drop_last()) + "&"@ + item
        }
    }
}

/// The address that answers for packages of these exact names.
pub fn info_url(names: &[&str]) -> (r: String)
    ensures
        r@ == RPC_BASE@ + "/info?"@ + query_of(text::slices(names@)),
{
    let ghost all = text::slices(names@);
    let mut query = String::new();
    let mut i: usize = 0;
    while i < names.len()
        invariant
            i <= names@.len(),
            all == text::slices(names@),
            query@ == query_of(all.take(i as int)),
        decreases names@.len() - i,
    {
        proof {
            assert(all.take(i + 1).drop_last() =~= all.take(i as int));
            assert(all.take(i + 1).last() == names@[i as int]@);
        }
        let item = text::concat("arg[]=", urlencode(names[i]).as_str());
        if i > 0 {
            query.append("&");
        }
        query.append(item.as_str());
        i += 1;
    }
    proof {
        assert(all.take(all.len() as int) =~= all);
    }
    text::concat3(RPC_BASE, "/info?", query.as_str())
}

/// An answer of the AUR.
#[derive(Debug)]
pub struct RpcResponse {
    /// What the answer is; `error` for an error.
    pub kind: String,
    /// What went wrong, where something did.
    pub error: Option<String>,
    /// The packages that were found.
    pub results: Vec<PackageMeta>,
}

/// An error that the AUR answered.
#[derive(Debug)]
pub struct RpcError {
    pub message: String,
}

/// The kind of an answer that is an error.
pub open spec fn is_error(kind: Seq<char>) -> bool {
    kind == "error"@
}

/// The message for an error that the AUR answered.
pub open spec fn error_message(error: Option<Seq<char>>) -> Seq<char> {
    "AUR RPC error: "@ + (match error {
        Some(e) => e,
        None => "unknown"@,
    })
}

/// The packages of an answer, unless it is an error.
pub fn info_many(response: RpcResponse) -> (r: Result<Vec<PackageMeta>, RpcError>)
    ensures
        r is Err <==> is_error(response.kind@),
        match r {
            Ok(found) => response.kind@ != "error"@ && found@ == response.results@,
            Err(e) => response.kind@ == "error"@ && e.message@ == error_message(
                text::opt_text(response.error),
            ),
        },
{
    if text::same(response.kind.as_str(), "error") {
        let reason = match response.error {
            Some(e) => e,
            None => String::from_str("unknown"),
        };
        return Err(RpcError { message: text::concat("AUR RPC error: ", reason.as_str()) });
    }
    Ok(response.results)
}

/// The package of an answer, unless it is an error. `None` if the AUR has no
/// such package.
pub fn info(response: RpcResponse) -> (r: Result<Option<PackageMeta>, RpcError>)
    ensures
        r is Err <==> is_error(response.kind@),
        match r {
            Ok(Some(m)) => response.kind@ != "error"@ && response.results@.len() > 0 && m
                == response.results@[0],
            Ok(None) => response.kind@ != "error"@ && response.results@.len() == 0,
            Err(e) => response.kind@ == "error"@ && e.message@ == error_message(
                text::opt_text(response.error),
            ),
        },
{
    match info_many(response) {
        Ok(mut found) => if found.len() == 0 {
            Ok(None)
        } else {
            Ok(Some(found.remove(0)))
        },
        Err(e) => Err(e),
    }
}

/// What an encoded value may hold: nothing that would end or split the query.
pub proof fn law_encoded_is_safe(bytes: Seq<u8>, i: int)
    requires
        0 <= i < encoded(bytes).len(),
    ensures
        text::is_alphanumeric(encoded(bytes)[i]) || encoded(bytes)[i] == '-' || encoded(bytes)[i]
            == '_' || encoded(bytes)[i] == '.' || encoded(bytes)[i] == '~' || encoded(bytes)[i]
            == '+' || encoded(bytes)[i] == '%',
    decreases bytes.len(),
{
    let before = encoded(bytes.drop_last());
    if i < before.len() {
        law_encoded_is_safe(bytes.drop_last(), i);
        assert(encoded(bytes)[i] == before[i]);
    } else {
        let b = bytes.last();
        if is_plain(b) {
            assert(encoded(bytes)[i] == b as char);
        } else {
            assert(encoded(bytes)[i] == text::percent_code(b)[i - before.len()]);
        }
    }
}

/// Encoding goes byte by byte; letters, digits and `-_.~+` stand for themselves,
/// and every other byte is a percent sign and two hexadecimal digits.
pub proof fn law_encoding(a: Seq<u8>, b: u8)
    ensures
        encoded(Seq::empty()) == Seq::<char>::empty(),
        (0x41 <= b <= 0x5a || 0x61 <= b <= 0x7a || 0x30 <= b <= 0x39 || b == 0x2d || b == 0x5f || b
            == 0x2e || b == 0x7e || b == 0x2b) ==> encoded(a.push(b)) == encoded(a).push(b as char),
        !(0x41 <= b <= 0x5a || 0x61 <= b <= 0x7a || 0x30 <= b <= 0x39 || b == 0x2d || b == 0x5f || b
            == 0x2e || b == 0x7e || b == 0x2b) ==> encoded(a.push(b)) == encoded(a) + seq![
            '%',
            "0123456789ABCDEF"@[b as int / 16],
            "0123456789ABCDEF"@[b as int % 16],
        ],
{
    assert(a.push(b).drop_last() =~= a);
    text::law_percent_codes(b);
    assert(text::percent_code(b) =~= seq![
        '%',
        "0123456789ABCDEF"@[b as int / 16],
        "0123456789ABCDEF"@[b as int % 16],
    ]);
}

/// Every name is asked for, in order: one behind `arg[]=`, several joined by `&`.
pub proof fn law_every_name_is_in_the_query(a: Seq<Seq<char>>, name: Seq<char>)
    ensures
        query_of(seq![name]) == "arg[]="@ + encoded(utf8::encode_utf8(name)),
        a.len() > 0 ==> query_of(a.push(name)) == query_of(a) + "&"@ + "arg[]="@ + encoded(
            utf8::encode_utf8(name),
        ),
{
    assert(a.push(name).drop_last() =~= a);
    if a.len() > 0 {
        let code = encoded(utf8::encode_utf8(name));
        assert(query_of(a) + "&"@ + ("arg[]="@ + code) =~= query_of(a) + "&"@ + "arg[]="@ + code);
    }
}

/// An error is reported with what the AUR said of it.
pub proof fn law_errors_are_passed_on(e: Seq<char>)
    ensures
        error_message(Some(e)) == "AUR RPC error: "@ + e,
        error_message(None) == "AUR RPC error: unknown"@,
{
    reveal_strlit("AUR RPC error: ");
    reveal_strlit("unknown");
    reveal_strlit("AUR RPC error: unknown");
    assert("AUR RPC error: "@ + "unknown"@ =~= "AUR RPC error: unknown"@);
}

/// An answer is an error exactly if it says so, and not by anything else in it.
pub proof fn law_kinds_of_answers(kind: Seq<char>)
    ensures
        is_error(kind) <==> kind == "error"@,
        !is_error("multiinfo"@) && !is_error("search"@) && !is_error(Seq::empty()),
{
    reveal_strlit("error");
    reveal_strlit("multiinfo");
    reveal_strlit("search");
    assert("multiinfo"@.len() != "error"@.len());
    assert("search"@.len() != "error"@.len());
}

} // verus!
