use crate::cipher::{
    aes128_cbc_raw, decrypt, decrypt_outcome, fixed_iv, fixed_iv_bytes, pkcs7_unpadded, pkcs7_valid,
    BLOCK_LEN,
};
use crate::error::CookieError;
use crate::key::{derive_key, derived_key};
use vstd::prelude::*;
use vstd::slice::slice_subrange;
use vstd::string::StringExecFns;
use vstd::utf8::{decode_utf8, encode_utf8, encode_utf8_decode_utf8, encode_utf8_valid_utf8, valid_utf8};

verus! {

/// Length of the version tag (such as `v10`) that starts every stored
/// ciphertext.
pub const TAG_LEN: usize = 3;

/// One row of the browser's cookie table, as read from the store.
pub struct StoreRow {
    pub host_key: String,
    pub name: String,
    pub encrypted_value: Vec<u8>,
}

/// A raw cookie of the requested host: its name and its stored ciphertext,
/// version tag included.
pub struct CookieRecord {
    pub name: String,
    pub encrypted_value: Vec<u8>,
}

/// A decrypted cookie, ready for injection: its other attributes are unset.
pub struct Cookie {
    pub name: String,
    pub value: String,
    pub domain: String,
}

/// The cookies of one host, in the order in which they were read.
pub struct Cookies(pub Vec<Cookie>);

/// What a `CookieRecord` holds, as mathematical values.
pub struct RecordView {
    pub name: Seq<char>,
    pub encrypted_value: Seq<u8>,
}

/// What a `Cookie` holds, as mathematical values.
pub struct CookieView {
    pub name: Seq<char>,
    pub value: Seq<char>,
    pub domain: Seq<char>,
}

impl View for CookieRecord {
    type V = RecordView;

    open spec fn view(&self) -> RecordView {
        RecordView { name: self.name@, encrypted_value: self.encrypted_value@ }
    }
}

impl View for Cookie {
    type V = CookieView;

    open spec fn view(&self) -> CookieView {
        CookieView { name: self.name@, value: self.value@, domain: self.domain@ }
    }
}

impl View for Cookies {
    type V = Seq<CookieView>;

    open spec fn view(&self) -> Seq<CookieView> {
        self.0@.map_values(|c: Cookie| c@)
    }
}

/// The views of `records`, in order.
pub open spec fn records_view(records: Seq<CookieRecord>) -> Seq<RecordView> {
    records.map_values(|r: CookieRecord| r@)
}

/// The records of the rows whose host is exactly `host`, in row order.
pub open spec fn selected(rows: Seq<StoreRow>, host: Seq<char>) -> Seq<RecordView>
    decreases rows.len(),
{
    if rows.len() == 0 {
        Seq::empty()
    } else {
        let prev = selected(rows.drop_last(), host);
        let row = rows.last();
        if row.host_key@ == host {
            prev.push(RecordView { name: row.name@, encrypted_value: row.encrypted_value@ })
        } else {
            prev
        }
    }
}

/// Relies on std's String::from_utf8: the string of the bytes where they are
/// valid UTF-8, an error (here `None`) where they are not.
#[verifier::external_body]
fn utf8_decode(b: Vec<u8>) -> (r: Option<String>)
    ensures
        r is Some <==> valid_utf8(b@),
        r matches Some(s) ==> s@ == decode_utf8(b@),
{
    String::from_utf8(b).ok()
}

/// The value stored as `encrypted_value`: the tag is stripped, the rest is
/// decrypted and read as UTF-8.
pub open spec fn value_outcome(encrypted_value: Seq<u8>, key: Seq<u8>, iv: Seq<u8>) -> Result<Seq<char>, CookieError> {
    if encrypted_value.len() < TAG_LEN {
        Err(CookieError::PaddingError)
    } else {
        match decrypt_outcome(encrypted_value.skip(TAG_LEN as int), key, iv) {
            Err(e) => Err(e),
            Ok(p) => if valid_utf8(p) {
                Ok(decode_utf8(p))
            } else {
                Err(CookieError::EncodingError)
            },
        }
    }
}

/// A stored value is recovered exactly: where the tag-stripped ciphertext is
/// whole blocks whose raw decryption is the UTF-8 encoding of `text` with
/// valid PKCS#7 padding, the recovered value is `text`.
pub proof fn lemma_encoded_value_recovered(encrypted_value: Seq<u8>, key: Seq<u8>, iv: Seq<u8>, text: Seq<char>)
    requires
        encrypted_value.len() >= TAG_LEN,
        encrypted_value.skip(TAG_LEN as int).len() % (BLOCK_LEN as nat) == 0,
        pkcs7_valid(aes128_cbc_raw(key, iv, encrypted_value.skip(TAG_LEN as int))),
        pkcs7_unpadded(aes128_cbc_raw(key, iv, encrypted_value.skip(TAG_LEN as int))) == encode_utf8(text),
    ensures
        value_outcome(encrypted_value, key, iv) == Ok::<Seq<char>, CookieError>(text),
{
    encode_utf8_valid_utf8(text);
    encode_utf8_decode_utf8(text);
}

/// The cookies that the records give for `host`: records with an empty
/// ciphertext are left out; the first record that fails to decrypt or to
/// decode fails the whole collection.
pub open spec fn cookies_outcome(records: Seq<RecordView>, host: Seq<char>, key: Seq<u8>, iv: Seq<u8>) -> Result<Seq<CookieView>, CookieError>
    decreases records.len(),
{
    if records.len() == 0 {
        Ok(Seq::empty())
    } else {
        match cookies_outcome(records.drop_last(), host, key, iv) {
            Err(e) => Err(e),
            Ok(prev) => {
                let r = records.last();
                if r.encrypted_value.len() == 0 {
                    Ok(prev)
                } else {
                    match value_outcome(r.encrypted_value, key, iv) {
                        Err(e) => Err(e),
                        Ok(v) => Ok(prev.push(CookieView { name: r.name, value: v, domain: host })),
                    }
                }
            },
        }
    }
}

/// `name=value`.
pub open spec fn pair_text(c: CookieView) -> Seq<char> {
    c.name + seq!['='] + c.value
}

/// The `name=value` pairs of `cs`, in order, joined by commas.
pub open spec fn rendered(cs: Seq<CookieView>) -> Seq<char>
    decreases cs.len(),
{
    if cs.len() == 0 {
        Seq::empty()
    } else if cs.len() == 1 {
        pair_text(cs[0])
    } else {
        rendered(cs.drop_last()) + seq![','] + pair_text(cs.last())
    }
}

/// Copies a byte vector.
fn copy_bytes(b: &Vec<u8>) -> (r: Vec<u8>)
    ensures
        r@ == b@,
{
    let mut r: Vec<u8> = Vec::new();
    let mut i: usize = 0;
    while i < b.len()
        invariant
            i <= b@.len(),
            r@ == b@.take(i as int),
        decreases b@.len() - i,
    {
        r.push(b[i]);
        i = i + 1;
        assert(r@ =~= b@.take(i as int));
    }
    assert(b@.take(i as int) =~= b@);
    r
}

/// The cookie store's lookup: the records of the rows whose host is exactly
/// `host_key` (no suffix or subdomain match), in row order.
pub fn select_rows(rows: &Vec<StoreRow>, host_key: &str) -> (r: Vec<CookieRecord>)
    ensures
        records_view(r@) == selected(rows@, host_key@),
{
    let host = host_key.to_owned();
    let mut r: Vec<CookieRecord> = Vec::new();
    let mut i: usize = 0;
    while i < rows.len()
        invariant
            i <= rows@.len(),
            host@ == host_key@,
            records_view(r@) == selected(rows@.take(i as int), host_key@),
        decreases rows@.len() - i,
    {
        let row = &rows[i];
        assert(rows@.take(i + 1).drop_last() =~= rows@.take(i as int));
        if row.host_key == host {
            let rec = CookieRecord { name: row.name.clone(), encrypted_value: copy_bytes(&row.encrypted_value) };
            r.push(rec);
            assert(records_view(r@) =~= selected(rows@.take(i + 1), host_key@));
        }
        i = i + 1;
    }
    assert(rows@.take(i as int) =~= rows@);
    r
}

/// Recovers one cookie value: strips the version tag, decrypts the rest and
/// reads it as UTF-8. A ciphertext shorter than the tag is a `PaddingError`.
pub fn decrypt_value(encrypted_value: &Vec<u8>, key: &[u8], iv: &[u8]) -> (r: Result<String, CookieError>)
    requires
        key@.len() == BLOCK_LEN,
        iv@.len() == BLOCK_LEN,
    ensures
        r matches Ok(v) ==> value_outcome(encrypted_value@, key@, iv@) == Ok::<Seq<char>, CookieError>(v@),
        r matches Err(e) ==> value_outcome(encrypted_value@, key@, iv@) == Err::<Seq<char>, CookieError>(e),
{
    if encrypted_value.len() < TAG_LEN {
        return Err(CookieError::PaddingError);
    }
    let body = slice_subrange(encrypted_value.as_slice(), TAG_LEN, encrypted_value.len());
    assert(body@ =~= encrypted_value@.skip(TAG_LEN as int));
    match decrypt(body, key, iv) {
        Err(e) => Err(e),
        Ok(plain) => match utf8_decode(plain) {
            Some(v) => Ok(v),
            None => Err(CookieError::EncodingError),
        },
    }
}

/// A cookie with the given name, value and domain, and no other attribute.
pub fn make_cookie(name: String, value: String, domain: String) -> (r: Cookie)
    ensures
        r@ == (CookieView { name: name@, value: value@, domain: domain@ }),
{
    Cookie { name, value, domain }
}

/// Once a prefix of the records fails, the whole collection fails with the
/// same error.
proof fn lemma_failure_persists(records: Seq<RecordView>, n: int, host: Seq<char>, key: Seq<u8>, iv: Seq<u8>)
    requires
        0 <= n <= records.len(),
        cookies_outcome(records.take(n), host, key, iv) is Err,
    ensures
        cookies_outcome(records, host, key, iv) == cookies_outcome(records.take(n), host, key, iv),
    decreases records.len() - n,
{
    if n == records.len() {
        assert(records.take(n) =~= records);
    } else {
        assert(records.drop_last().take(n) =~= records.take(n));
        lemma_failure_persists(records.drop_last(), n, host, key, iv);
    }
}

/// Recovery fails fast: where any record with a ciphertext fails to decrypt
/// or decode, the whole collection fails and no cookie is returned.
pub proof fn lemma_failing_record_fails_all(records: Seq<RecordView>, i: int, host: Seq<char>, key: Seq<u8>, iv: Seq<u8>)
    requires
        0 <= i < records.len(),
        records[i].encrypted_value.len() > 0,
        value_outcome(records[i].encrypted_value, key, iv) is Err,
    ensures
        cookies_outcome(records, host, key, iv) is Err,
{
    let prefix = records.take(i + 1);
    assert(prefix.drop_last() =~= records.take(i));
    assert(prefix.last() == records[i]);
    lemma_failure_persists(records, i + 1, host, key, iv);
}

/// Every recovered cookie has the requested host as its domain, and there is
/// at most one cookie per record.
pub proof fn lemma_cookies_bound_to_host(records: Seq<RecordView>, host: Seq<char>, key: Seq<u8>, iv: Seq<u8>)
    ensures
        cookies_outcome(records, host, key, iv) matches Ok(cs) ==> cs.len() <= records.len()
            && forall|j: int| 0 <= j < cs.len() ==> (#[trigger] cs[j]).domain == host,
    decreases records.len(),
{
    if records.len() > 0 {
        lemma_cookies_bound_to_host(records.drop_last(), host, key, iv);
    }
}

/// The first failing record decides the error: where every record before
/// record `i` succeeds and record `i` fails with `e` (a corrupted final block
/// gives `PaddingError`), the whole collection fails with `e`.
pub proof fn lemma_first_failure_decides(records: Seq<RecordView>, i: int, e: CookieError, host: Seq<char>, key: Seq<u8>, iv: Seq<u8>)
    requires
        0 <= i < records.len(),
        cookies_outcome(records.take(i), host, key, iv) is Ok,
        records[i].encrypted_value.len() > 0,
        value_outcome(records[i].encrypted_value, key, iv) == Err::<Seq<char>, CookieError>(e),
    ensures
        cookies_outcome(records, host, key, iv) == Err::<Seq<CookieView>, CookieError>(e),
{
    let prefix = records.take(i + 1);
    assert(prefix.drop_last() =~= records.take(i));
    assert(prefix.last() == records[i]);
    lemma_failure_persists(records, i + 1, host, key, iv);
}

/// Decrypts the records of `host_key` with the storage key: records with an
/// empty ciphertext are skipped, every other one becomes a cookie of domain
/// `host_key`, in order. The first record that fails to decrypt or decode
/// fails the whole call, and no cookie is returned.
pub fn decrypt_records(host_key: &str, records: &Vec<CookieRecord>, key: &[u8]) -> (r: Result<Cookies, CookieError>)
    requires
        key@.len() == BLOCK_LEN,
    ensures
        r matches Ok(c) ==> cookies_outcome(records_view(records@), host_key@, key@, fixed_iv())
            == Ok::<Seq<CookieView>, CookieError>(c@),
        r matches Err(e) ==> cookies_outcome(records_view(records@), host_key@, key@, fixed_iv())
            == Err::<Seq<CookieView>, CookieError>(e),
{
    let iv = fixed_iv_bytes();
    let ghost recs = records_view(records@);
    let mut result: Vec<Cookie> = Vec::new();
    let mut i: usize = 0;
    assert(recs.take(0) =~= Seq::<RecordView>::empty());
    assert(result@.map_values(|c: Cookie| c@) =~= Seq::<CookieView>::empty());
    while i < records.len()
        invariant
            i <= records@.len(),
            key@.len() == BLOCK_LEN,
            iv@ == fixed_iv(),
            recs == records_view(records@),
            cookies_outcome(recs.take(i as int), host_key@, key@, fixed_iv())
                == Ok::<Seq<CookieView>, CookieError>(result@.map_values(|c: Cookie| c@)),
        decreases records@.len() - i,
    {
        let record = &records[i];
        assert(recs.take(i + 1).drop_last() =~= recs.take(i as int));
        assert(recs.take(i + 1).last() == record@);
        if record.encrypted_value.len() > 0 {
            match decrypt_value(&record.encrypted_value, key, iv.as_slice()) {
                Err(e) => {
                    proof {
                        lemma_failure_persists(recs, i + 1, host_key@, key@, fixed_iv());
                    }
                    return Err(e);
                },
                Ok(value) => {
                    let cookie = make_cookie(record.name.clone(), value, host_key.to_owned());
                    result.push(cookie);
                },
            }
        }
        assert(result@.map_values(|c: Cookie| c@) =~= match cookies_outcome(recs.take(i + 1), host_key@, key@, fixed_iv()) {
            Ok(s) => s,
            Err(_) => Seq::empty(),
        });
        i = i + 1;
    }
    assert(recs.take(i as int) =~= recs);
    Ok(Cookies(result))
}

/// A record with an empty ciphertext adds no cookie and causes no error:
/// appending one leaves the outcome as it was.
pub proof fn lemma_empty_record_skipped(records: Seq<RecordView>, r: RecordView, host: Seq<char>, key: Seq<u8>, iv: Seq<u8>)
    requires
        r.encrypted_value.len() == 0,
    ensures
        cookies_outcome(records.push(r), host, key, iv) == cookies_outcome(records, host, key, iv),
{
    assert(records.push(r).drop_last() =~= records);
}

/// Records that all have empty ciphertexts give an empty collection, and
/// success.
pub proof fn lemma_all_empty_records_give_nothing(records: Seq<RecordView>, host: Seq<char>, key: Seq<u8>, iv: Seq<u8>)
    requires
        forall|i: int| 0 <= i < records.len() ==> #[trigger] records[i].encrypted_value.len() == 0,
    ensures
        cookies_outcome(records, host, key, iv) == Ok::<Seq<CookieView>, CookieError>(Seq::empty()),
    decreases records.len(),
{
    if records.len() > 0 {
        let prev = records.drop_last();
        assert forall|i: int| 0 <= i < prev.len() implies #[trigger] prev[i].encrypted_value.len() == 0 by {
            assert(prev[i] == records[i]);
        }
        lemma_all_empty_records_give_nothing(prev, host, key, iv);
        assert(records.last() == records[records.len() - 1]);
    }
}

/// Host selection is an exact match: every selected record comes from a row
/// whose host equals the queried host, and where no row's host equals it,
/// nothing is selected, whatever the rows' subdomains or suffixes.
pub proof fn lemma_selection_is_exact(rows: Seq<StoreRow>, host: Seq<char>)
    ensures
        (forall|i: int| 0 <= i < rows.len() ==> #[trigger] rows[i].host_key@ != host)
            ==> selected(rows, host) == Seq::<RecordView>::empty(),
        forall|j: int| #![trigger selected(rows, host)[j]] 0 <= j < selected(rows, host).len() ==> exists|i: int|
            #![trigger rows[i]]
            0 <= i < rows.len() && rows[i].host_key@ == host
                && rows[i].name@ == selected(rows, host)[j].name
                && rows[i].encrypted_value@ == selected(rows, host)[j].encrypted_value,
    decreases rows.len(),
{
    if rows.len() > 0 {
        let prev = rows.drop_last();
        lemma_selection_is_exact(prev, host);
        let sel = selected(rows, host);
        let ps = selected(prev, host);
        assert forall|j: int| #![trigger sel[j]] 0 <= j < sel.len() implies exists|i: int|
            #![trigger rows[i]]
            0 <= i < rows.len() && rows[i].host_key@ == host
                && rows[i].name@ == sel[j].name
                && rows[i].encrypted_value@ == sel[j].encrypted_value by {
            if j < ps.len() {
                assert(sel[j] == ps[j]);
                let i = choose|i: int|
                    #![trigger prev[i]]
                    0 <= i < prev.len() && prev[i].host_key@ == host
                        && prev[i].name@ == ps[j].name
                        && prev[i].encrypted_value@ == ps[j].encrypted_value;
                assert(prev[i] == rows[i]);
            } else {
                let i = rows.len() - 1;
                assert(rows[i] == rows.last());
            }
        }
        if forall|i: int| 0 <= i < rows.len() ==> #[trigger] rows[i].host_key@ != host {
            assert forall|i: int| 0 <= i < prev.len() implies #[trigger] prev[i].host_key@ != host by {
                assert(prev[i] == rows[i]);
            }
            assert(rows.last() == rows[rows.len() - 1]);
        }
    }
}

/// What `make_cookies` gives: the key is derived from the master secret, the
/// rows of `host` are selected and their records decrypted.
pub open spec fn recovered(host: Seq<char>, secret: Seq<u8>, rows: Seq<StoreRow>) -> Result<Seq<CookieView>, CookieError> {
    match derived_key(secret) {
        None => Err(CookieError::KeyDerivationError),
        Some(key) => cookies_outcome(selected(rows, host), host, key, fixed_iv()),
    }
}

/// Recovers the cookies of `host_key` from the browser's master secret and
/// the rows of its cookie table.
pub fn make_cookies(host_key: &str, secret: &[u8], rows: &Vec<StoreRow>) -> (r: Result<Cookies, CookieError>)
    ensures
        r matches Ok(c) ==> recovered(host_key@, secret@, rows@) == Ok::<Seq<CookieView>, CookieError>(c@),
        r matches Err(e) ==> recovered(host_key@, secret@, rows@) == Err::<Seq<CookieView>, CookieError>(e),
{
    let key = match derive_key(secret) {
        Ok(k) => k,
        Err(e) => return Err(e),
    };
    let records = select_rows(rows, host_key);
    decrypt_records(host_key, &records, key.as_slice())
}

/// The cookies of plaintext `(name, value)` pairs for `host`, in order.
pub open spec fn pairs_view(pairs: Seq<(String, String)>, host: Seq<char>) -> Seq<CookieView> {
    pairs.map_values(|p: (String, String)| CookieView { name: p.0@, value: p.1@, domain: host })
}

/// Builds the cookies of an override source: each plaintext `(name, value)`
/// pair becomes a cookie of domain `host_key`, in order, with nothing
/// decrypted, filtered or deduplicated.
pub fn cookies_from_pairs(pairs: Vec<(String, String)>, host_key: &str) -> (r: Cookies)
    ensures
        r@ == pairs_view(pairs@, host_key@),
{
    let mut result: Vec<Cookie> = Vec::new();
    let mut rest = pairs;
    let ghost all = rest@;
    assert(all.take(0) =~= Seq::<(String, String)>::empty());
    assert(result@.map_values(|c: Cookie| c@) =~= Seq::<CookieView>::empty());
    while rest.len() > 0
        invariant
            rest@.len() <= all.len(),
            all == pairs@,
            rest@ == all.skip(all.len() - rest@.len()),
            result@.map_values(|c: Cookie| c@) == pairs_view(all.take(all.len() - rest@.len()), host_key@),
        decreases rest@.len(),
    {
        let ghost k = all.len() - rest@.len();
        let (name, value) = rest.remove(0);
        assert(all[k] == (name, value));
        assert(pairs_view(all.take(k + 1), host_key@) =~= pairs_view(all.take(k), host_key@).push(
            CookieView { name: name@, value: value@, domain: host_key@ },
        ));
        result.push(make_cookie(name, value, host_key.to_owned()));
        assert(result@.map_values(|c: Cookie| c@) =~= pairs_view(all.take(k + 1), host_key@));
        assert(rest@ =~= all.skip(k + 1));
    }
    assert(all.take(all.len() as int) =~= all);
    Cookies(result)
}

impl Cookies {
    /// Wraps cookies that come from another source, such as a plaintext
    /// override.
    pub fn new(cookies: Vec<Cookie>) -> (r: Cookies)
        ensures
            r@ == cookies@.map_values(|c: Cookie| c@),
    {
        Cookies(cookies)
    }

    /// The cookies, for injection into a browser tab.
    pub fn into_vec(self) -> (r: Vec<Cookie>)
        ensures
            r@.map_values(|c: Cookie| c@) == self@,
    {
        self.0
    }

    /// The diagnostic rendering: `name=value` pairs in order, joined by
    /// commas, with no trailing separator.
    pub fn render(&self) -> (r: String)
        ensures
            r@ == rendered(self@),
    {
        let mut r = String::new();
        let mut i: usize = 0;
        while i < self.0.len()
            invariant
                i <= self@.len(),
                r@ == rendered(self@.take(i as int)),
            decreases self@.len() - i,
        {
            let c = &self.0[i];
            proof {
                reveal_strlit(",");
                reveal_strlit("=");
            }
            assert(self@.take(i + 1).drop_last() =~= self@.take(i as int));
            if i > 0 {
                r.append(",");
            }
            r.append(c.name.as_str());
            r.append("=");
            r.append(c.value.as_str());
            assert(r@ =~= rendered(self@.take(i + 1)));
            i = i + 1;
        }
        assert(self@.take(i as int) =~= self@);
        r
    }
}

} // verus!
