//! The statement: one delimited row per account, after a header row.
use crate::engine::{Account, Ledger, LedgerState};
use crate::errors::StatementError;
use crate::money::abs;
use std::string::FromUtf8Error;
use vstd::prelude::*;

verus! {

/// The header row of a statement, without its terminator.
pub open spec fn header_fields() -> Seq<Seq<u8>> {
    seq![
        seq![99u8, 108, 105, 101, 110, 116],  // client
        seq![97u8, 118, 97, 105, 108, 97, 98, 108, 101],  // available
        seq![104u8, 101, 108, 100],  // held
        seq![116u8, 111, 116, 97, 108],  // total
        seq![108u8, 111, 99, 107, 101, 100],  // locked
    ]
}

pub open spec fn digit_byte(d: int) -> u8 {
    (48 + d) as u8
}

/// The decimal digits of `n`, most significant first, without leading zeros.
pub open spec fn nat_text(n: nat) -> Seq<u8>
    decreases n,
{
    if n < 10 {
        seq![digit_byte(n as int)]
    } else {
        nat_text(n / 10).push(digit_byte((n % 10) as int))
    }
}

/// `s` without trailing `0` digits, keeping at least one byte.
pub open spec fn trim_zeros(s: Seq<u8>) -> Seq<u8>
    decreases s.len(),
{
    if s.len() > 1 && s.last() == 48u8 {
        trim_zeros(s.drop_last())
    } else {
        s
    }
}

/// The four fraction digits of `f < 10000`, trailing zeros dropped but one.
pub open spec fn fraction_text(f: nat) -> Seq<u8> {
    trim_zeros(
        seq![
            digit_byte((f / 1000) as int),
            digit_byte(((f / 100) % 10) as int),
            digit_byte(((f / 10) % 10) as int),
            digit_byte((f % 10) as int),
        ],
    )
}

/// A fixed-point amount as text: sign, whole part, point, fraction
/// (`10.0`, `8.6753`, `-0.5`).
pub open spec fn units_text(u: int) -> Seq<u8> {
    let a = abs(u);
    let sign = if u < 0 { seq![45u8] } else { Seq::<u8>::empty() };
    sign + nat_text((a / 10000) as nat) + seq![46u8] + fraction_text((a % 10000) as nat)
}

pub open spec fn bool_text(b: bool) -> Seq<u8> {
    if b {
        seq![116u8, 114, 117, 101]
    } else {
        seq![102u8, 97, 108, 115, 101]
    }
}

/// The fields of the row of `a`.
pub open spec fn account_fields(a: Account) -> Seq<Seq<u8>> {
    seq![
        nat_text(a.client as nat),
        units_text(a.available as int),
        units_text(a.held as int),
        units_text(a.total as int),
        bool_text(a.locked),
    ]
}

/// A field that a delimited-text writer copies as it is: not empty, and no
/// delimiter, quote or line break in it.
pub open spec fn plain_field(f: Seq<u8>) -> bool {
    &&& f.len() > 0
    &&& forall|i: int|
        0 <= i < f.len() ==> f[i] != 44u8 && f[i] != 34u8 && f[i] != 10u8 && f[i] != 13u8
}

/// The fields joined by commas.
pub open spec fn joined(fields: Seq<Seq<u8>>) -> Seq<u8>
    decreases fields.len(),
{
    if fields.len() == 0 {
        Seq::empty()
    } else if fields.len() == 1 {
        fields[0]
    } else {
        joined(fields.drop_last()) + seq![44u8] + fields.last()
    }
}

/// One record: the fields joined by commas, then a newline.
pub open spec fn record_text(fields: Seq<Seq<u8>>) -> Seq<u8> {
    joined(fields).push(10u8)
}

/// The rows of the accounts of `clients`, in that order.
pub open spec fn rows_text(s: LedgerState, clients: Seq<u16>) -> Seq<u8>
    decreases clients.len(),
{
    if clients.len() == 0 {
        Seq::empty()
    } else {
        rows_text(s, clients.drop_last()) + record_text(
            account_fields(s.accounts[clients.last()]),
        )
    }
}

/// The whole statement of a ledger, its accounts in the order they were
/// opened.
pub open spec fn statement_text(s: LedgerState) -> Seq<u8> {
    record_text(header_fields()) + rows_text(s, s.order)
}

/// A field of a statement: not empty, and every byte between `-` and `z`,
/// so it needs no quotes and is ASCII.
pub open spec fn printable_field(f: Seq<u8>) -> bool {
    f.len() > 0 && forall|i: int| 0 <= i < f.len() ==> 45 <= #[trigger] f[i] <= 122
}

pub open spec fn is_ascii_bytes(s: Seq<u8>) -> bool {
    forall|i: int| 0 <= i < s.len() ==> #[trigger] s[i] < 128
}

proof fn lemma_nat_text_digits(n: nat)
    ensures
        nat_text(n).len() > 0,
        forall|i: int| 0 <= i < nat_text(n).len() ==> 48 <= #[trigger] nat_text(n)[i] <= 57,
    decreases n,
{
    if n >= 10 {
        lemma_nat_text_digits(n / 10);
    }
}

proof fn lemma_trim_zeros_prefix(s: Seq<u8>)
    requires
        s.len() > 0,
    ensures
        trim_zeros(s).len() > 0,
        trim_zeros(s).len() <= s.len(),
        trim_zeros(s) == s.take(trim_zeros(s).len() as int),
    decreases s.len(),
{
    if s.len() > 1 && s.last() == 48u8 {
        lemma_trim_zeros_prefix(s.drop_last());
        assert(s.drop_last().take(trim_zeros(s).len() as int) =~= s.take(
            trim_zeros(s).len() as int,
        ));
    } else {
        assert(s.take(s.len() as int) =~= s);
    }
}

proof fn lemma_units_text_printable(u: int)
    ensures
        printable_field(units_text(u)),
{
    let a = abs(u);
    lemma_nat_text_digits((a / 10000) as nat);
    let f = (a % 10000) as nat;
    let digits = seq![
        digit_byte((f / 1000) as int),
        digit_byte(((f / 100) % 10) as int),
        digit_byte(((f / 10) % 10) as int),
        digit_byte((f % 10) as int),
    ];
    assert(f / 1000 < 10);
    lemma_trim_zeros_prefix(digits);
    let t = units_text(u);
    let sign = if u < 0 { seq![45u8] } else { Seq::<u8>::empty() };
    let whole = nat_text((a / 10000) as nat);
    let frac = fraction_text(f);
    assert(t == sign + whole + seq![46u8] + frac);
    assert forall|i: int| 0 <= i < t.len() implies 45 <= #[trigger] t[i] <= 122 by {
        if i < sign.len() {
        } else if i < sign.len() + whole.len() {
            assert(t[i] == whole[i - sign.len()]);
        } else if i == sign.len() + whole.len() {
        } else {
            let j = i - sign.len() - whole.len() - 1;
            assert(t[i] == frac[j]);
            assert(frac[j] == digits[j]);
        }
    }
}

proof fn lemma_account_fields_printable(a: Account)
    ensures
        forall|i: int|
            0 <= i < account_fields(a).len() ==> printable_field(#[trigger] account_fields(a)[i]),
{
    lemma_nat_text_digits(a.client as nat);
    lemma_units_text_printable(a.available as int);
    lemma_units_text_printable(a.held as int);
    lemma_units_text_printable(a.total as int);
    assert(printable_field(bool_text(a.locked)));
}

proof fn lemma_record_text_ascii(fields: Seq<Seq<u8>>)
    requires
        forall|i: int| 0 <= i < fields.len() ==> printable_field(#[trigger] fields[i]),
    ensures
        is_ascii_bytes(record_text(fields)),
{
    lemma_joined_ascii(fields);
}

proof fn lemma_joined_ascii(fields: Seq<Seq<u8>>)
    requires
        forall|i: int| 0 <= i < fields.len() ==> printable_field(#[trigger] fields[i]),
    ensures
        is_ascii_bytes(joined(fields)),
    decreases fields.len(),
{
    if fields.len() == 1 {
        assert(printable_field(fields[0]));
    } else if fields.len() > 1 {
        let init = fields.drop_last();
        assert forall|i: int| 0 <= i < init.len() implies printable_field(#[trigger] init[i]) by {
            assert(init[i] == fields[i]);
        }
        lemma_joined_ascii(init);
        assert(printable_field(fields[fields.len() - 1]));
    }
}

/// Appends the decimal digits of `n`.
fn push_nat_text(out: &mut Vec<u8>, n: u64)
    ensures
        final(out)@ == old(out)@ + nat_text(n as nat),
    decreases n,
{
    if n >= 10 {
        push_nat_text(out, n / 10);
    }
    out.push((48 + n % 10) as u8);
    proof {
        if n >= 10 {
            assert(old(out)@ + nat_text(n as nat) =~= old(out)@ + nat_text((n / 10) as nat) + seq![
                digit_byte((n % 10) as int),
            ]);
        } else {
            assert(old(out)@ + nat_text(n as nat) =~= old(out)@.push(digit_byte((n % 10) as int)));
        }
    }
}

/// The text of a fixed-point amount: `10.0`, `8.6753`, `-0.5`.
pub fn units_to_text(u: i64) -> (r: Vec<u8>)
    ensures
        r@ == units_text(u as int),
{
    let a: u64 = if u < 0 {
        (-(u as i128)) as u64
    } else {
        u as u64
    };
    let mut r: Vec<u8> = Vec::new();
    if u < 0 {
        r.push(45u8);
    }
    push_nat_text(&mut r, a / 10000);
    r.push(46u8);
    let f = a % 10000;
    let mut digits: Vec<u8> = vec![
        (48 + f / 1000) as u8,
        (48 + (f / 100) % 10) as u8,
        (48 + (f / 10) % 10) as u8,
        (48 + f % 10) as u8,
    ];
    let ghost all = digits@;
    assert(all =~= seq![
        digit_byte((f / 1000) as int),
        digit_byte(((f / 100) % 10) as int),
        digit_byte(((f / 10) % 10) as int),
        digit_byte((f % 10) as int),
    ]);
    let mut k: usize = 4;
    assert(all.take(4) =~= all);
    while k > 1 && digits[k - 1] == 48u8
        invariant
            1 <= k <= 4,
            all.len() == 4,
            digits@ == all,
            trim_zeros(all.take(k as int)) == trim_zeros(all),
        decreases k,
    {
        assert(all.take(k as int).drop_last() =~= all.take(k - 1));
        assert(all.take(k as int).last() == digits@[k - 1]);
        k = k - 1;
    }
    digits.truncate(k);
    let mut frac = digits;
    r.append(&mut frac);
    proof {
        assert(abs(u as int) == a as int);
        let sign = if u < 0 { seq![45u8] } else { Seq::<u8>::empty() };
        assert(r@ =~= sign + nat_text((a / 10000) as nat) + seq![46u8] + all.take(k as int));
    }
    r
}

/// The fields of the statement row of `account`.
fn account_row(account: &Account) -> (r: Vec<Vec<u8>>)
    ensures
        r@.map_values(|f: Vec<u8>| f@) == account_fields(*account),
{
    let mut client: Vec<u8> = Vec::new();
    push_nat_text(&mut client, account.client as u64);
    let locked: Vec<u8> = if account.locked {
        vec![116u8, 114, 117, 101]
    } else {
        vec![102u8, 97, 108, 115, 101]
    };
    let r = vec![
        client,
        units_to_text(account.available),
        units_to_text(account.held),
        units_to_text(account.total),
        locked,
    ];
    assert(r@.map_values(|f: Vec<u8>| f@) =~= account_fields(*account));
    r
}

/// Relies on csv::Writer::write_record and Writer::into_inner writing one
/// record into a fresh `Vec<u8>`: the writer's only errors are I/O errors,
/// which a `Vec` never returns, and unequal record lengths, which need an
/// earlier record, so it succeeds; fields needing no quotes are written as
/// they are, separated by commas and ended by a newline.
#[verifier::external_body]
fn encode_record(fields: &Vec<Vec<u8>>) -> (r: Result<Vec<u8>, csv::Error>)
    ensures
        r is Ok,
        fields@.len() > 0 && (forall|i: int|
            0 <= i < fields@.len() ==> plain_field(#[trigger] fields@[i]@)) ==> r->Ok_0@
            == record_text(fields@.map_values(|f: Vec<u8>| f@)),
{
    let mut writer = csv::Writer::from_writer(Vec::new());
    writer.write_record(fields)?;
    writer.into_inner().map_err(|e| csv::Error::from(e.into_error()))
}

/// Relies on String::from_utf8: ASCII bytes are valid UTF-8, each standing
/// for the character of the same code.
#[verifier::external_body]
fn ascii_to_string(bytes: Vec<u8>) -> (r: Result<String, FromUtf8Error>)
    ensures
        (forall|i: int| 0 <= i < bytes@.len() ==> bytes@[i] < 128) ==> r is Ok && r->Ok_0@
            == bytes@.map_values(|b: u8| b as char),
{
    String::from_utf8(bytes)
}

impl Ledger {
    /// Renders the statement: a header row, then one row per account in the
    /// order the accounts were opened.
    pub fn generate_account_statements(&self) -> (r: Result<String, StatementError>)
        requires
            self.wf(),
        ensures
            r is Ok,
            r->Ok_0@ == statement_text(self.state()).map_values(|b: u8| b as char),
    {
        let accounts = self.accounts_in_order();
        let ghost s = self.state();
        let header: Vec<Vec<u8>> = vec![
            vec![99u8, 108, 105, 101, 110, 116],
            vec![97u8, 118, 97, 105, 108, 97, 98, 108, 101],
            vec![104u8, 101, 108, 100],
            vec![116u8, 111, 116, 97, 108],
            vec![108u8, 111, 99, 107, 101, 100],
        ];
        proof {
            assert(header@.map_values(|f: Vec<u8>| f@) =~= header_fields());
            assert forall|i: int| 0 <= i < header@.len() implies plain_field(
                #[trigger] header@[i]@,
            ) by {
                assert(header@[i]@ == header_fields()[i]);
            }
            assert forall|i: int| 0 <= i < header_fields().len() implies printable_field(
                #[trigger] header_fields()[i],
            ) by {}
            lemma_record_text_ascii(header_fields());
        }
        let mut out = match encode_record(&header) {
            Ok(bytes) => bytes,
            Err(e) => return Err(StatementError::SerializeError(e)),
        };
        let mut i: usize = 0;
        assert(s.order.take(0) =~= Seq::<u16>::empty());
        while i < accounts.len()
            invariant
                self.wf(),
                s == self.state(),
                accounts@ == s.order.map_values(|c: u16| s.accounts[c]),
                i <= accounts@.len(),
                out@ == record_text(header_fields()) + rows_text(s, s.order.take(i as int)),
                is_ascii_bytes(out@),
            decreases accounts@.len() - i,
        {
            let row = account_row(&accounts[i]);
            proof {
                let fields = account_fields(accounts@[i as int]);
                lemma_account_fields_printable(accounts@[i as int]);
                assert forall|j: int| 0 <= j < row@.len() implies plain_field(#[trigger] row@[j]@) by {
                    assert(row@[j]@ == fields[j]);
                }
                lemma_record_text_ascii(fields);
            }
            let mut bytes = match encode_record(&row) {
                Ok(bytes) => bytes,
                Err(e) => return Err(StatementError::SerializeError(e)),
            };
            let ghost before = out@;
            out.append(&mut bytes);
            proof {
                let taken = s.order.take(i + 1);
                assert(taken.drop_last() =~= s.order.take(i as int));
                assert(taken.last() == s.order[i as int]);
                assert(out@ =~= record_text(header_fields()) + rows_text(s, taken));
                assert forall|j: int| 0 <= j < out@.len() implies #[trigger] out@[j] < 128 by {
                    if j >= before.len() {
                        assert(out@[j] == record_text(account_fields(accounts@[i as int]))[j
                            - before.len()]);
                    }
                }
            }
            i = i + 1;
        }
        assert(s.order.take(i as int) =~= s.order);
        match ascii_to_string(out) {
            Ok(text) => Ok(text),
            Err(e) => Err(StatementError::EncodingError(e)),
        }
    }
}

} // verus!
