//! The static table of RFC 7541 Appendix A: 61 predefined header fields,
//! addressed 1-based in the combined index space.

use vstd::prelude::*;

use crate::dyn_table::TableEntry;

verus! {

use vstd::string::StringSliceAdditionalSpecFns;
use vstd::string::StrSliceExecFns;
use crate::dyn_table::EntryModel;

/// The static table entry at the 1-based index `k`, as octet sequences.
pub open spec fn spec_static_entry(k: int) -> EntryModel
    recommends
        1 <= k <= 61,
{
    if k == 1 {
        EntryModel { name: (":authority").spec_bytes(), value: ("").spec_bytes() }
    } else if k == 2 {
        EntryModel { name: (":method").spec_bytes(), value: ("GET").spec_bytes() }
    } else if k == 3 {
        EntryModel { name: (":method").spec_bytes(), value: ("POST").spec_bytes() }
    } else if k == 4 {
        EntryModel { name: (":path").spec_bytes(), value: ("/").spec_bytes() }
    } else if k == 5 {
        EntryModel { name: (":path").spec_bytes(), value: ("/index.html").spec_bytes() }
    } else if k == 6 {
        EntryModel { name: (":scheme").spec_bytes(), value: ("http").spec_bytes() }
    } else if k == 7 {
        EntryModel { name: (":scheme").spec_bytes(), value: ("https").spec_bytes() }
    } else if k == 8 {
        EntryModel { name: (":status").spec_bytes(), value: ("200").spec_bytes() }
    } else if k == 9 {
        EntryModel { name: (":status").spec_bytes(), value: ("204").spec_bytes() }
    } else if k == 10 {
        EntryModel { name: (":status").spec_bytes(), value: ("206").spec_bytes() }
    } else if k == 11 {
        EntryModel { name: (":status").spec_bytes(), value: ("304").spec_bytes() }
    } else if k == 12 {
        EntryModel { name: (":status").spec_bytes(), value: ("400").spec_bytes() }
    } else if k == 13 {
        EntryModel { name: (":status").spec_bytes(), value: ("404").spec_bytes() }
    } else if k == 14 {
        EntryModel { name: (":status").spec_bytes(), value: ("500").spec_bytes() }
    } else if k == 15 {
        EntryModel { name: ("accept-charset").spec_bytes(), value: ("").spec_bytes() }
    } else if k == 16 {
        EntryModel { name: ("accept-encoding").spec_bytes(), value: ("gzip, deflate").spec_bytes() }
    } else if k == 17 {
        EntryModel { name: ("accept-language").spec_bytes(), value: ("").spec_bytes() }
    } else if k == 18 {
        EntryModel { name: ("accept-ranges").spec_bytes(), value: ("").spec_bytes() }
    } else if k == 19 {
        EntryModel { name: ("accept").spec_bytes(), value: ("").spec_bytes() }
    } else if k == 20 {
        EntryModel { name: ("access-control-allow-origin").spec_bytes(), value: ("").spec_bytes() }
    } else if k == 21 {
        EntryModel { name: ("age").spec_bytes(), value: ("").spec_bytes() }
    } else if k == 22 {
        EntryModel { name: ("allow").spec_bytes(), value: ("").spec_bytes() }
    } else if k == 23 {
        EntryModel { name: ("authorization").spec_bytes(), value: ("").spec_bytes() }
    } else if k == 24 {
        EntryModel { name: ("cache-control").spec_bytes(), value: ("").spec_bytes() }
    } else if k == 25 {
        EntryModel { name: ("content-disposition").spec_bytes(), value: ("").spec_bytes() }
    } else if k == 26 {
        EntryModel { name: ("content-encoding").spec_bytes(), value: ("").spec_bytes() }
    } else if k == 27 {
        EntryModel { name: ("content-language").spec_bytes(), value: ("").spec_bytes() }
    } else if k == 28 {
        EntryModel { name: ("content-length").spec_bytes(), value: ("").spec_bytes() }
    } else if k == 29 {
        EntryModel { name: ("content-location").spec_bytes(), value: ("").spec_bytes() }
    } else if k == 30 {
        EntryModel { name: ("content-range").spec_bytes(), value: ("").spec_bytes() }
    } else if k == 31 {
        EntryModel { name: ("content-type").spec_bytes(), value: ("").spec_bytes() }
    } else if k == 32 {
        EntryModel { name: ("cookie").spec_bytes(), value: ("").spec_bytes() }
    } else if k == 33 {
        EntryModel { name: ("date").spec_bytes(), value: ("").spec_bytes() }
    } else if k == 34 {
        EntryModel { name: ("etag").spec_bytes(), value: ("").spec_bytes() }
    } else if k == 35 {
        EntryModel { name: ("expect").spec_bytes(), value: ("").spec_bytes() }
    } else if k == 36 {
        EntryModel { name: ("expires").spec_bytes(), value: ("").spec_bytes() }
    } else if k == 37 {
        EntryModel { name: ("from").spec_bytes(), value: ("").spec_bytes() }
    } else if k == 38 {
        EntryModel { name: ("host").spec_bytes(), value: ("").spec_bytes() }
    } else if k == 39 {
        EntryModel { name: ("if-match").spec_bytes(), value: ("").spec_bytes() }
    } else if k == 40 {
        EntryModel { name: ("if-modified-since").spec_bytes(), value: ("").spec_bytes() }
    } else if k == 41 {
        EntryModel { name: ("if-none-match").spec_bytes(), value: ("").spec_bytes() }
    } else if k == 42 {
        EntryModel { name: ("if-range").spec_bytes(), value: ("").spec_bytes() }
    } else if k == 43 {
        EntryModel { name: ("if-unmodified-since").spec_bytes(), value: ("").spec_bytes() }
    } else if k == 44 {
        EntryModel { name: ("last-modified").spec_bytes(), value: ("").spec_bytes() }
    } else if k == 45 {
        EntryModel { name: ("link").spec_bytes(), value: ("").spec_bytes() }
    } else if k == 46 {
        EntryModel { name: ("location").spec_bytes(), value: ("").spec_bytes() }
    } else if k == 47 {
        EntryModel { name: ("max-forwards").spec_bytes(), value: ("").spec_bytes() }
    } else if k == 48 {
        EntryModel { name: ("proxy-authenticate").spec_bytes(), value: ("").spec_bytes() }
    } else if k == 49 {
        EntryModel { name: ("proxy-authorization").spec_bytes(), value: ("").spec_bytes() }
    } else if k == 50 {
        EntryModel { name: ("range").spec_bytes(), value: ("").spec_bytes() }
    } else if k == 51 {
        EntryModel { name: ("referer").spec_bytes(), value: ("").spec_bytes() }
    } else if k == 52 {
        EntryModel { name: ("refresh").spec_bytes(), value: ("").spec_bytes() }
    } else if k == 53 {
        EntryModel { name: ("retry-after").spec_bytes(), value: ("").spec_bytes() }
    } else if k == 54 {
        EntryModel { name: ("server").spec_bytes(), value: ("").spec_bytes() }
    } else if k == 55 {
        EntryModel { name: ("set-cookie").spec_bytes(), value: ("").spec_bytes() }
    } else if k == 56 {
        EntryModel { name: ("strict-transport-security").spec_bytes(), value: ("").spec_bytes() }
    } else if k == 57 {
        EntryModel { name: ("transfer-encoding").spec_bytes(), value: ("").spec_bytes() }
    } else if k == 58 {
        EntryModel { name: ("user-agent").spec_bytes(), value: ("").spec_bytes() }
    } else if k == 59 {
        EntryModel { name: ("vary").spec_bytes(), value: ("").spec_bytes() }
    } else if k == 60 {
        EntryModel { name: ("via").spec_bytes(), value: ("").spec_bytes() }
    } else {
        EntryModel { name: ("www-authenticate").spec_bytes(), value: ("").spec_bytes() }
    }
}

/// The static table entry at the 1-based index `k`. The names are the
/// lowercase ASCII octets of RFC 7541 Appendix A.
pub fn static_entry(k: u32) -> (r: TableEntry)
    requires
        1 <= k <= 61,
    ensures
        r@ == spec_static_entry(k as int),
{
    let (name, value): (&str, &str) = match k {
        1 => (":authority", ""),
        2 => (":method", "GET"),
        3 => (":method", "POST"),
        4 => (":path", "/"),
        5 => (":path", "/index.html"),
        6 => (":scheme", "http"),
        7 => (":scheme", "https"),
        8 => (":status", "200"),
        9 => (":status", "204"),
        10 => (":status", "206"),
        11 => (":status", "304"),
        12 => (":status", "400"),
        13 => (":status", "404"),
        14 => (":status", "500"),
        15 => ("accept-charset", ""),
        16 => ("accept-encoding", "gzip, deflate"),
        17 => ("accept-language", ""),
        18 => ("accept-ranges", ""),
        19 => ("accept", ""),
        20 => ("access-control-allow-origin", ""),
        21 => ("age", ""),
        22 => ("allow", ""),
        23 => ("authorization", ""),
        24 => ("cache-control", ""),
        25 => ("content-disposition", ""),
        26 => ("content-encoding", ""),
        27 => ("content-language", ""),
        28 => ("content-length", ""),
        29 => ("content-location", ""),
        30 => ("content-range", ""),
        31 => ("content-type", ""),
        32 => ("cookie", ""),
        33 => ("date", ""),
        34 => ("etag", ""),
        35 => ("expect", ""),
        36 => ("expires", ""),
        37 => ("from", ""),
        38 => ("host", ""),
        39 => ("if-match", ""),
        40 => ("if-modified-since", ""),
        41 => ("if-none-match", ""),
        42 => ("if-range", ""),
        43 => ("if-unmodified-since", ""),
        44 => ("last-modified", ""),
        45 => ("link", ""),
        46 => ("location", ""),
        47 => ("max-forwards", ""),
        48 => ("proxy-authenticate", ""),
        49 => ("proxy-authorization", ""),
        50 => ("range", ""),
        51 => ("referer", ""),
        52 => ("refresh", ""),
        53 => ("retry-after", ""),
        54 => ("server", ""),
        55 => ("set-cookie", ""),
        56 => ("strict-transport-security", ""),
        57 => ("transfer-encoding", ""),
        58 => ("user-agent", ""),
        59 => ("vary", ""),
        60 => ("via", ""),
        _ => ("www-authenticate", ""),
    };
    TableEntry { name: name.as_bytes_vec(), value: value.as_bytes_vec() }
}

/// Every static table entry has a short name and value: the longest name has
/// 27 octets and the longest value 13.
pub proof fn lemma_static_entry_lens()
    ensures
        forall|k: int|
            1 <= k <= 61 ==> #[trigger] spec_static_entry(k).name.len() <= 32
                && spec_static_entry(k).value.len() <= 32,
{
    broadcast use vstd::string::group_string_axioms;

    reveal_strlit("");
    reveal_strlit("/");
    reveal_strlit("/index.html");
    reveal_strlit("200");
    reveal_strlit("204");
    reveal_strlit("206");
    reveal_strlit("304");
    reveal_strlit("400");
    reveal_strlit("404");
    reveal_strlit("500");
    reveal_strlit(":authority");
    reveal_strlit(":method");
    reveal_strlit(":path");
    reveal_strlit(":scheme");
    reveal_strlit(":status");
    reveal_strlit("GET");
    reveal_strlit("POST");
    reveal_strlit("accept");
    reveal_strlit("accept-charset");
    reveal_strlit("accept-encoding");
    reveal_strlit("accept-language");
    reveal_strlit("accept-ranges");
    reveal_strlit("access-control-allow-origin");
    reveal_strlit("age");
    reveal_strlit("allow");
    reveal_strlit("authorization");
    reveal_strlit("cache-control");
    reveal_strlit("content-disposition");
    reveal_strlit("content-encoding");
    reveal_strlit("content-language");
    reveal_strlit("content-length");
    reveal_strlit("content-location");
    reveal_strlit("content-range");
    reveal_strlit("content-type");
    reveal_strlit("cookie");
    reveal_strlit("date");
    reveal_strlit("etag");
    reveal_strlit("expect");
    reveal_strlit("expires");
    reveal_strlit("from");
    reveal_strlit("gzip, deflate");
    reveal_strlit("host");
    reveal_strlit("http");
    reveal_strlit("https");
    reveal_strlit("if-match");
    reveal_strlit("if-modified-since");
    reveal_strlit("if-none-match");
    reveal_strlit("if-range");
    reveal_strlit("if-unmodified-since");
    reveal_strlit("last-modified");
    reveal_strlit("link");
    reveal_strlit("location");
    reveal_strlit("max-forwards");
    reveal_strlit("proxy-authenticate");
    reveal_strlit("proxy-authorization");
    reveal_strlit("range");
    reveal_strlit("referer");
    reveal_strlit("refresh");
    reveal_strlit("retry-after");
    reveal_strlit("server");
    reveal_strlit("set-cookie");
    reveal_strlit("strict-transport-security");
    reveal_strlit("transfer-encoding");
    reveal_strlit("user-agent");
    reveal_strlit("vary");
    reveal_strlit("via");
    reveal_strlit("www-authenticate");
    assert(("").is_ascii());
    assert(("/").is_ascii());
    assert(("/index.html").is_ascii());
    assert(("200").is_ascii());
    assert(("204").is_ascii());
    assert(("206").is_ascii());
    assert(("304").is_ascii());
    assert(("400").is_ascii());
    assert(("404").is_ascii());
    assert(("500").is_ascii());
    assert((":authority").is_ascii());
    assert((":method").is_ascii());
    assert((":path").is_ascii());
    assert((":scheme").is_ascii());
    assert((":status").is_ascii());
    assert(("GET").is_ascii());
    assert(("POST").is_ascii());
    assert(("accept").is_ascii());
    assert(("accept-charset").is_ascii());
    assert(("accept-encoding").is_ascii());
    assert(("accept-language").is_ascii());
    assert(("accept-ranges").is_ascii());
    assert(("access-control-allow-origin").is_ascii());
    assert(("age").is_ascii());
    assert(("allow").is_ascii());
    assert(("authorization").is_ascii());
    assert(("cache-control").is_ascii());
    assert(("content-disposition").is_ascii());
    assert(("content-encoding").is_ascii());
    assert(("content-language").is_ascii());
    assert(("content-length").is_ascii());
    assert(("content-location").is_ascii());
    assert(("content-range").is_ascii());
    assert(("content-type").is_ascii());
    assert(("cookie").is_ascii());
    assert(("date").is_ascii());
    assert(("etag").is_ascii());
    assert(("expect").is_ascii());
    assert(("expires").is_ascii());
    assert(("from").is_ascii());
    assert(("gzip, deflate").is_ascii());
    assert(("host").is_ascii());
    assert(("http").is_ascii());
    assert(("https").is_ascii());
    assert(("if-match").is_ascii());
    assert(("if-modified-since").is_ascii());
    assert(("if-none-match").is_ascii());
    assert(("if-range").is_ascii());
    assert(("if-unmodified-since").is_ascii());
    assert(("last-modified").is_ascii());
    assert(("link").is_ascii());
    assert(("location").is_ascii());
    assert(("max-forwards").is_ascii());
    assert(("proxy-authenticate").is_ascii());
    assert(("proxy-authorization").is_ascii());
    assert(("range").is_ascii());
    assert(("referer").is_ascii());
    assert(("refresh").is_ascii());
    assert(("retry-after").is_ascii());
    assert(("server").is_ascii());
    assert(("set-cookie").is_ascii());
    assert(("strict-transport-security").is_ascii());
    assert(("transfer-encoding").is_ascii());
    assert(("user-agent").is_ascii());
    assert(("vary").is_ascii());
    assert(("via").is_ascii());
    assert(("www-authenticate").is_ascii());
}

} // verus!
