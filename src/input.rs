//! Decoding the input: delimited records with a header naming the columns
//! `type`, `client`, `tx` and `amount`, into transactions.
use crate::engine::{process_step, Ledger, LedgerState, Transaction, TransactionType};
use crate::errors::{InputError, TransactionError, Warning};
use crate::money::{fits_i64, Decimal};
use vstd::prelude::*;

verus! {

pub open spec fn is_digit(b: u8) -> bool {
    48 <= b <= 57
}

pub open spec fn all_digits(s: Seq<u8>) -> bool {
    forall|i: int| 0 <= i < s.len() ==> is_digit(#[trigger] s[i])
}

/// The number that the decimal digits `s` denote.
pub open spec fn digits_value(s: Seq<u8>) -> nat
    decreases s.len(),
{
    if s.len() == 0 {
        0
    } else {
        10 * digits_value(s.drop_last()) + (s.last() - 48) as nat
    }
}

/// The index of the first `.` in `s`, or its length where there is none.
pub open spec fn first_dot(s: Seq<u8>) -> int
    decreases s.len(),
{
    if s.len() == 0 {
        0
    } else if s[0] == 46u8 {
        0
    } else {
        1 + first_dot(s.drop_first())
    }
}

/// The length of a leading `-` or `+`.
pub open spec fn sign_len(s: Seq<u8>) -> int {
    if s.len() > 0 && (s[0] == 45u8 || s[0] == 43u8) {
        1
    } else {
        0
    }
}

/// The decimal that `s` writes: an optional sign, digits, and optionally a
/// point followed by more digits, with at least one digit in all. `None`
/// where `s` is not of that form or its digits do not fit an `i64`.
pub open spec fn decimal_text(s: Seq<u8>) -> Option<Decimal> {
    let body = s.subrange(sign_len(s), s.len() as int);
    let dot = first_dot(body);
    let whole = body.take(dot);
    let fraction = if dot < body.len() {
        body.subrange(dot + 1, body.len() as int)
    } else {
        Seq::<u8>::empty()
    };
    let digits = whole + fraction;
    let value: int = if sign_len(s) == 1 && s[0] == 45u8 {
        -digits_value(digits)
    } else {
        digits_value(digits) as int
    };
    if all_digits(whole) && all_digits(fraction) && digits.len() > 0 && fits_i64(value)
        && fraction.len() <= u32::MAX {
        Some(Decimal { mantissa: value as i64, scale: fraction.len() as u32 })
    } else {
        None
    }
}

proof fn lemma_first_dot(s: Seq<u8>, m: int)
    requires
        0 <= m <= s.len(),
        forall|j: int| 0 <= j < m ==> s[j] != 46u8,
        m == s.len() || s[m] == 46u8,
    ensures
        first_dot(s) == m,
    decreases s.len(),
{
    if s.len() > 0 && m > 0 {
        lemma_first_dot(s.drop_first(), m - 1);
    }
}

proof fn lemma_digits_value_prefix(s: Seq<u8>, k: int)
    requires
        0 <= k <= s.len(),
        all_digits(s),
    ensures
        digits_value(s.take(k)) <= digits_value(s),
    decreases s.len() - k,
{
    if k < s.len() {
        lemma_digits_value_prefix(s, k + 1);
        assert(s.take(k + 1).drop_last() =~= s.take(k));
        assert(is_digit(s[k]));
    } else {
        assert(s.take(k) =~= s);
    }
}

/// Reads a decimal amount such as `8.675309`, `-1.0` or `10`.
pub fn parse_amount(text: &[u8]) -> (r: Option<Decimal>)
    ensures
        r == decimal_text(text@),
{
    let n = text.len();
    let start: usize = if n > 0 && (text[0] == 45u8 || text[0] == 43u8) {
        1
    } else {
        0
    };
    let negative = start == 1 && text[0] == 45u8;
    let ghost body = text@.subrange(start as int, n as int);
    let mut dot = start;
    while dot < n && text[dot] != 46u8
        invariant
            start <= dot <= n == text@.len(),
            body == text@.subrange(start as int, n as int),
            forall|j: int| start <= j < dot ==> text@[j] != 46u8,
        decreases n - dot,
    {
        dot = dot + 1;
    }
    proof {
        lemma_first_dot(body, dot - start);
    }
    let fraction_start: usize = if dot < n {
        dot + 1
    } else {
        n
    };
    let whole_len = dot - start;
    let fraction_len = n - fraction_start;
    let ghost whole = body.take(dot - start);
    let ghost fraction = text@.subrange(fraction_start as int, n as int);
    let ghost digits = whole + fraction;
    proof {
        assert(whole =~= text@.subrange(start as int, dot as int));
        if dot < n {
            assert(fraction =~= body.subrange(dot - start + 1, body.len() as int));
        } else {
            assert(fraction =~= Seq::<u8>::empty());
        }
    }
    if whole_len + fraction_len == 0 {
        return None;
    }
    if fraction_len > u32::MAX as usize {
        return None;
    }
    let total = whole_len + fraction_len;
    let mut acc: u64 = 0;
    let mut k: usize = 0;
    assert(digits.take(0) =~= Seq::<u8>::empty());
    while k < total
        invariant
            total == digits.len(),
            total == whole_len + fraction_len,
            fraction_len == n - fraction_start,
            whole.len() == whole_len,
            body == text@.subrange(start as int, n as int),
            first_dot(body) == dot - start,
            dot < n ==> fraction_start == dot + 1,
            dot >= n ==> fraction_start == n,
            whole == body.take(dot - start),
            body.len() == n - start,
            fraction == (if dot - start < body.len() {
                body.subrange(dot - start + 1, body.len() as int)
            } else {
                Seq::<u8>::empty()
            }),
            negative == (sign_len(text@) == 1 && text@[0] == 45u8),
            start == sign_len(text@),
            digits == whole + fraction,
            whole == text@.subrange(start as int, dot as int),
            fraction == text@.subrange(fraction_start as int, n as int),
            start <= dot <= fraction_start <= n == text@.len(),
            k <= total,
            acc as nat == digits_value(digits.take(k as int)),
            acc <= 0x8000_0000_0000_0000,
            forall|j: int| 0 <= j < k ==> is_digit(#[trigger] digits[j]),
        decreases total - k,
    {
        let b = if k < whole_len {
            text[start + k]
        } else {
            text[fraction_start + (k - whole_len)]
        };
        assert(b == digits[k as int]);
        if b < 48u8 || b > 57u8 {
            proof {
                if k < whole_len {
                    assert(whole[k as int] == b);
                    assert(!is_digit(whole[k as int]));
                    assert(!all_digits(whole));
                } else {
                    assert(fraction[k - whole_len] == b);
                    assert(!is_digit(fraction[k - whole_len]));
                    assert(!all_digits(fraction));
                }
            }
            return None;
        }
        let next: u128 = acc as u128 * 10 + (b - 48u8) as u128;
        proof {
            assert(digits.take(k + 1).drop_last() =~= digits.take(k as int));
        }
        if next > 0x8000_0000_0000_0000u128 {
            proof {
                if all_digits(whole) && all_digits(fraction) {
                    assert forall|j: int| 0 <= j < digits.len() implies is_digit(
                        #[trigger] digits[j],
                    ) by {
                        if j < whole.len() {
                            assert(digits[j] == whole[j]);
                        } else {
                            assert(digits[j] == fraction[j - whole.len()]);
                        }
                    }
                    lemma_digits_value_prefix(digits, k + 1);
                }
            }
            return None;
        }
        acc = next as u64;
        k = k + 1;
    }
    proof {
        assert(digits.take(k as int) =~= digits);
        assert forall|j: int| 0 <= j < whole.len() implies is_digit(#[trigger] whole[j]) by {
            assert(whole[j] == digits[j]);
        }
        assert forall|j: int| 0 <= j < fraction.len() implies is_digit(#[trigger] fraction[j]) by {
            assert(fraction[j] == digits[j + whole.len()]);
        }
    }
    let mantissa: i64 = if negative {
        if acc == 0x8000_0000_0000_0000u64 {
            i64::MIN
        } else {
            -(acc as i64)
        }
    } else {
        if acc > i64::MAX as u64 {
            return None;
        }
        acc as i64
    };
    Some(Decimal { mantissa, scale: fraction_len as u32 })
}

/// The number that `s` writes in decimal digits, if it is one.
pub open spec fn unsigned_text(s: Seq<u8>) -> Option<nat> {
    if s.len() > 0 && all_digits(s) {
        Some(digits_value(s))
    } else {
        None
    }
}

/// Reads an unsigned integer no greater than `max`.
pub fn parse_unsigned(text: &[u8], max: u64) -> (r: Option<u64>)
    ensures
        r == (match unsigned_text(text@) {
            Some(v) => if v <= max {
                Some(v as u64)
            } else {
                None
            },
            None => None,
        }),
{
    let n = text.len();
    if n == 0 {
        return None;
    }
    let mut acc: u64 = 0;
    let mut k: usize = 0;
    assert(text@.take(0) =~= Seq::<u8>::empty());
    while k < n
        invariant
            n == text@.len() > 0,
            k <= n,
            acc as nat == digits_value(text@.take(k as int)),
            acc <= max,
            forall|j: int| 0 <= j < k ==> is_digit(#[trigger] text@[j]),
        decreases n - k,
    {
        let b = text[k];
        if b < 48u8 || b > 57u8 {
            assert(!is_digit(text@[k as int]));
            return None;
        }
        let next: u128 = acc as u128 * 10 + (b - 48u8) as u128;
        proof {
            assert(text@.take(k + 1).drop_last() =~= text@.take(k as int));
        }
        if next > max as u128 {
            proof {
                if all_digits(text@) {
                    lemma_digits_value_prefix(text@, k + 1);
                }
            }
            return None;
        }
        acc = next as u64;
        k = k + 1;
    }
    assert(text@.take(k as int) =~= text@);
    Some(acc)
}

/// `b` with an ASCII capital turned into its small letter.
pub open spec fn ascii_lower(b: u8) -> u8 {
    if 65 <= b <= 90 {
        (b + 32) as u8
    } else {
        b
    }
}

/// Whether `s` is the lower-case word `w` up to the case of its letters.
pub open spec fn matches_word(s: Seq<u8>, w: Seq<u8>) -> bool {
    s.len() == w.len() && forall|i: int| 0 <= i < s.len() ==> ascii_lower(s[i]) == w[i]
}

fn word_matches(s: &[u8], w: &[u8]) -> (r: bool)
    ensures
        r == matches_word(s@, w@),
{
    if s.len() != w.len() {
        return false;
    }
    let mut i: usize = 0;
    while i < s.len()
        invariant
            s@.len() == w@.len(),
            i <= s@.len(),
            forall|j: int| 0 <= j < i ==> ascii_lower(s@[j]) == w@[j],
        decreases s@.len() - i,
    {
        let b = s[i];
        let lower = if 65u8 <= b && b <= 90u8 {
            b + 32
        } else {
            b
        };
        if lower != w[i] {
            return false;
        }
        i = i + 1;
    }
    true
}

pub open spec fn deposit_word() -> Seq<u8> {
    seq![100u8, 101, 112, 111, 115, 105, 116]
}

pub open spec fn withdrawal_word() -> Seq<u8> {
    seq![119u8, 105, 116, 104, 100, 114, 97, 119, 97, 108]
}

pub open spec fn dispute_word() -> Seq<u8> {
    seq![100u8, 105, 115, 112, 117, 116, 101]
}

pub open spec fn resolve_word() -> Seq<u8> {
    seq![114u8, 101, 115, 111, 108, 118, 101]
}

pub open spec fn chargeback_word() -> Seq<u8> {
    seq![99u8, 104, 97, 114, 103, 101, 98, 97, 99, 107]
}

/// The kind that `s` names, in any case: `deposit`, `withdrawal`,
/// `dispute`, `resolve` or `chargeback`.
pub open spec fn kind_text(s: Seq<u8>) -> Option<TransactionType> {
    if matches_word(s, deposit_word()) {
        Some(TransactionType::Deposit)
    } else if matches_word(s, withdrawal_word()) {
        Some(TransactionType::Withdrawal)
    } else if matches_word(s, dispute_word()) {
        Some(TransactionType::Dispute)
    } else if matches_word(s, resolve_word()) {
        Some(TransactionType::Resolve)
    } else if matches_word(s, chargeback_word()) {
        Some(TransactionType::Chargeback)
    } else {
        None
    }
}

/// Reads the kind of a transaction, ignoring the case of its letters.
pub fn parse_kind(text: &[u8]) -> (r: Option<TransactionType>)
    ensures
        r == kind_text(text@),
{
    let deposit: [u8; 7] = [100, 101, 112, 111, 115, 105, 116];
    let withdrawal: [u8; 10] = [119, 105, 116, 104, 100, 114, 97, 119, 97, 108];
    let dispute: [u8; 7] = [100, 105, 115, 112, 117, 116, 101];
    let resolve: [u8; 7] = [114, 101, 115, 111, 108, 118, 101];
    let chargeback: [u8; 10] = [99, 104, 97, 114, 103, 101, 98, 97, 99, 107];
    assert(deposit@ =~= deposit_word());
    assert(withdrawal@ =~= withdrawal_word());
    assert(dispute@ =~= dispute_word());
    assert(resolve@ =~= resolve_word());
    assert(chargeback@ =~= chargeback_word());
    if word_matches(text, &deposit) {
        Some(TransactionType::Deposit)
    } else if word_matches(text, &withdrawal) {
        Some(TransactionType::Withdrawal)
    } else if word_matches(text, &dispute) {
        Some(TransactionType::Dispute)
    } else if word_matches(text, &resolve) {
        Some(TransactionType::Resolve)
    } else if word_matches(text, &chargeback) {
        Some(TransactionType::Chargeback)
    } else {
        None
    }
}

/// Where each field of a transaction stands in a record.
#[derive(Clone, Copy, Debug, PartialEq, Eq, Structural)]
pub struct Columns {
    pub kind: usize,
    pub client: usize,
    pub tx: usize,
    pub amount: Option<usize>,
}

pub open spec fn type_word() -> Seq<u8> {
    seq![116u8, 121, 112, 101]
}

pub open spec fn client_word() -> Seq<u8> {
    seq![99u8, 108, 105, 101, 110, 116]
}

pub open spec fn tx_word() -> Seq<u8> {
    seq![116u8, 120]
}

pub open spec fn amount_word() -> Seq<u8> {
    seq![97u8, 109, 111, 117, 110, 116]
}

/// The position of the first field of `header` equal to `name`.
pub open spec fn column_of(header: Seq<Seq<u8>>, name: Seq<u8>) -> Option<int>
    decreases header.len(),
{
    if header.len() == 0 {
        None
    } else if header[0] == name {
        Some(0)
    } else {
        match column_of(header.drop_first(), name) {
            Some(i) => Some(i + 1),
            None => None,
        }
    }
}

/// The columns that `header` names; `type`, `client` and `tx` must be there.
pub open spec fn columns_of(header: Seq<Seq<u8>>) -> Option<Columns> {
    match (
        column_of(header, type_word()),
        column_of(header, client_word()),
        column_of(header, tx_word()),
    ) {
        (Some(k), Some(c), Some(t)) => Some(
            Columns {
                kind: k as usize,
                client: c as usize,
                tx: t as usize,
                amount: match column_of(header, amount_word()) {
                    Some(a) => Some(a as usize),
                    None => None,
                },
            },
        ),
        _ => None,
    }
}

proof fn lemma_column_of_bounds(header: Seq<Seq<u8>>, name: Seq<u8>)
    ensures
        column_of(header, name) matches Some(i) ==> 0 <= i < header.len() && header[i] == name,
        column_of(header, name) is None ==> forall|i: int|
            0 <= i < header.len() ==> header[i] != name,
    decreases header.len(),
{
    if header.len() > 0 {
        lemma_column_of_bounds(header.drop_first(), name);
        if header[0] != name {
            assert forall|i: int| 1 <= i < header.len() implies header[i] == header.drop_first()[i
                - 1] by {}
        }
    }
}

/// Finds the first field of `header` equal to `name`.
fn find_column(header: &Vec<Vec<u8>>, name: &[u8]) -> (r: Option<usize>)
    ensures
        r == (match column_of(header.deep_view(), name@) {
            Some(i) => Some(i as usize),
            None => None,
        }),
        column_of(header.deep_view(), name@) matches Some(i) ==> i < header@.len(),
{
    proof {
        lemma_column_of_bounds(header.deep_view(), name@);
    }
    let ghost h = header.deep_view();
    let mut i: usize = 0;
    assert(h.subrange(0, h.len() as int) =~= h);
    while i < header.len()
        invariant
            h == header.deep_view(),
            i <= h.len(),
            column_of(h, name@) == (match column_of(h.subrange(i as int, h.len() as int), name@) {
                Some(j) => Some(j + i),
                None => None,
            }),
        decreases h.len() - i,
    {
        let ghost rest = h.subrange(i as int, h.len() as int);
        assert(rest[0] == h[i as int]);
        assert(rest.drop_first() =~= h.subrange(i + 1, h.len() as int));
        assert(h[i as int] =~= header@[i as int]@);
        if bytes_equal(&header[i], name) {
            assert(column_of(rest, name@) == Some(0int));
            return Some(i);
        }
        assert(column_of(rest, name@) == (match column_of(rest.drop_first(), name@) {
            Some(j) => Some(j + 1),
            None => None,
        }));
        i = i + 1;
    }
    assert(h.subrange(i as int, h.len() as int) =~= Seq::<Seq<u8>>::empty());
    None
}

fn bytes_equal(a: &Vec<u8>, b: &[u8]) -> (r: bool)
    ensures
        r == (a@ == b@),
{
    if a.len() != b.len() {
        return false;
    }
    let mut i: usize = 0;
    while i < a.len()
        invariant
            a@.len() == b@.len(),
            i <= a@.len(),
            forall|j: int| 0 <= j < i ==> a@[j] == b@[j],
        decreases a@.len() - i,
    {
        if a[i] != b[i] {
            return false;
        }
        i = i + 1;
    }
    assert(a@ =~= b@);
    true
}

/// Finds the columns of a transaction in a header record.
pub fn parse_header(header: &Vec<Vec<u8>>) -> (r: Option<Columns>)
    ensures
        r == columns_of(header.deep_view()),
{
    let kind_name: [u8; 4] = [116, 121, 112, 101];
    let client_name: [u8; 6] = [99, 108, 105, 101, 110, 116];
    let tx_name: [u8; 2] = [116, 120];
    let amount_name: [u8; 6] = [97, 109, 111, 117, 110, 116];
    assert(kind_name@ =~= type_word());
    assert(client_name@ =~= client_word());
    assert(tx_name@ =~= tx_word());
    assert(amount_name@ =~= amount_word());
    let kind = find_column(header, &kind_name);
    let client = find_column(header, &client_name);
    let tx = find_column(header, &tx_name);
    let amount = find_column(header, &amount_name);
    match (kind, client, tx) {
        (Some(kind), Some(client), Some(tx)) => Some(Columns { kind, client, tx, amount }),
        _ => None,
    }
}

/// The transaction that `record` describes under `columns`. A missing or
/// empty amount field, or no amount column, gives no amount.
pub open spec fn record_transaction_of(columns: Columns, record: Seq<Seq<u8>>) -> Option<Transaction> {
    if columns.kind >= record.len() || columns.client >= record.len() || columns.tx >= record.len() {
        None
    } else {
        let amount_field: Option<Seq<u8>> = match columns.amount {
            Some(a) => if a < record.len() && record[a as int].len() > 0 {
                Some(record[a as int])
            } else {
                None
            },
            None => None,
        };
        match (
            kind_text(record[columns.kind as int]),
            unsigned_text(record[columns.client as int]),
            unsigned_text(record[columns.tx as int]),
        ) {
            (Some(kind), Some(client), Some(tx)) => if client <= u16::MAX && tx <= u32::MAX {
                match amount_field {
                    None => Some(Transaction { kind, client: client as u16, tx: tx as u32, amount: None }),
                    Some(f) => match decimal_text(f) {
                        Some(d) => Some(
                            Transaction { kind, client: client as u16, tx: tx as u32, amount: Some(d) },
                        ),
                        None => None,
                    },
                }
            } else {
                None
            },
            _ => None,
        }
    }
}

/// Decodes one data record.
pub fn parse_record(columns: &Columns, record: &Vec<Vec<u8>>) -> (r: Option<Transaction>)
    ensures
        r == record_transaction_of(*columns, record.deep_view()),
{
    let n = record.len();
    if columns.kind >= n || columns.client >= n || columns.tx >= n {
        return None;
    }
    let ghost rec = record.deep_view();
    assert(rec[columns.kind as int] == record@[columns.kind as int]@);
    assert(rec[columns.client as int] == record@[columns.client as int]@);
    assert(rec[columns.tx as int] == record@[columns.tx as int]@);
    let kind = parse_kind(record[columns.kind].as_slice());
    let client = parse_unsigned(record[columns.client].as_slice(), 65535);
    let tx = parse_unsigned(record[columns.tx].as_slice(), 4294967295);
    let (kind, client, tx) = match (kind, client, tx) {
        (Some(kind), Some(client), Some(tx)) => (kind, client as u16, tx as u32),
        _ => return None,
    };
    let amount = match columns.amount {
        Some(a) => {
            if a < n && record[a].len() > 0 {
                assert(rec[a as int] == record@[a as int]@);
                match parse_amount(record[a].as_slice()) {
                    Some(d) => Some(d),
                    None => return None,
                }
            } else {
                None
            }
        },
        None => None,
    };
    Some(Transaction { kind, client, tx, amount })
}

/// What the records of an input do to a ledger in state `s`, the header
/// first and then each data record in turn: a record that describes no
/// transaction, or a transaction error that is not recoverable, ends the
/// load; recoverable errors are collected.
pub open spec fn load(s: LedgerState, columns: Columns, rows: Seq<Seq<Seq<u8>>>) -> (
    LedgerState,
    Result<Seq<Warning>, InputError>,
)
    decreases rows.len(),
{
    if rows.len() == 0 {
        (s, Ok(Seq::empty()))
    } else {
        let (s0, r0) = load(s, columns, rows.drop_last());
        match r0 {
            Err(e) => (s0, Err(e)),
            Ok(warnings) => match record_transaction_of(columns, rows.last()) {
                None => (s0, Err(InputError::InvalidRecord(rows.len() as usize))),
                Some(t) => {
                    let (s1, r1) = process_step(s0, t);
                    match r1 {
                        Ok(()) => (s1, Ok(warnings)),
                        Err(e) => if e.is_recoverable() {
                            (s1, Ok(warnings.push(Warning { tx: t.tx, error: e })))
                        } else {
                            (s1, Err(InputError::Transaction(e)))
                        },
                    }
                },
            },
        }
    }
}

proof fn lemma_load_failed_stays(
    s: LedgerState,
    columns: Columns,
    rows: Seq<Seq<Seq<u8>>>,
    i: int,
)
    requires
        0 <= i <= rows.len(),
        load(s, columns, rows.take(i)).1 is Err,
    ensures
        load(s, columns, rows) == load(s, columns, rows.take(i)),
    decreases rows.len() - i,
{
    if i < rows.len() {
        assert(rows.take(i + 1).drop_last() =~= rows.take(i));
        lemma_load_failed_stays(s, columns, rows, i + 1);
    } else {
        assert(rows.take(i) =~= rows);
    }
}

/// What a whole input of records builds from an empty ledger: no records
/// at all give an empty ledger; otherwise the first record is the header.
pub open spec fn load_records(records: Seq<Seq<Seq<u8>>>) -> (
    LedgerState,
    Result<Seq<Warning>, InputError>,
) {
    if records.len() == 0 {
        (LedgerState::empty(), Ok(Seq::empty()))
    } else {
        match columns_of(records[0]) {
            None => (LedgerState::empty(), Err(InputError::MissingColumn)),
            Some(columns) => load(LedgerState::empty(), columns, records.drop_first()),
        }
    }
}

/// What the delimited-text reader makes of `input`: its records, each a
/// sequence of fields with surrounding whitespace removed.
pub uninterp spec fn csv_records(input: Seq<u8>) -> Seq<Seq<Seq<u8>>>;

/// Relies on csv::Reader::byte_records, reading with no header row, records
/// of varying length allowed and whitespace trimmed around every field: the
/// records it yields depend on the input alone, and over an in-memory slice
/// with varying lengths allowed it meets neither an I/O error nor an
/// unequal-length error, so it succeeds.
#[verifier::external_body]
fn read_records(input: &[u8]) -> (r: Result<Vec<Vec<Vec<u8>>>, csv::Error>)
    ensures
        r is Ok,
        r->Ok_0.deep_view() == csv_records(input@),
{
    let mut reader = csv::ReaderBuilder::new().has_headers(false).flexible(true).trim(
        csv::Trim::All,
    ).from_reader(input);
    reader.byte_records().map(
        |record| record.map(|record| record.iter().map(|field| field.to_vec()).collect()),
    ).collect()
}

impl Ledger {
    /// Builds a ledger from records: the first names the columns, each
    /// further one is a transaction, processed in order. Insufficient-funds
    /// withdrawals are returned beside the ledger; the first other failure
    /// is returned instead of it.
    pub fn from_records(records: &Vec<Vec<Vec<u8>>>) -> (r: Result<
        (Ledger, Vec<Warning>),
        InputError,
    >)
        ensures
            match r {
                Ok((ledger, warnings)) => ledger.wf() && load_records(records.deep_view()) == (
                    ledger.state(),
                    Ok::<Seq<Warning>, InputError>(warnings@),
                ),
                Err(e) => load_records(records.deep_view()).1 == Err::<
                    Seq<Warning>,
                    InputError,
                >(e),
            },
    {
        let mut ledger = Ledger::new();
        let mut warnings: Vec<Warning> = Vec::new();
        if records.len() == 0 {
            return Ok((ledger, warnings));
        }
        let ghost all = records.deep_view();
        assert(all[0] == records@[0].deep_view());
        let columns = match parse_header(&records[0]) {
            Some(columns) => columns,
            None => return Err(InputError::MissingColumn),
        };
        let ghost rows = all.drop_first();
        let ghost s0 = ledger.state();
        let mut i: usize = 1;
        assert(rows.take(0) =~= Seq::<Seq<Seq<u8>>>::empty());
        while i < records.len()
            invariant
                ledger.wf(),
                s0 == LedgerState::empty(),
                all == records.deep_view(),
                rows == all.drop_first(),
                columns_of(all[0]) == Some(columns),
                1 <= i <= records@.len(),
                load(s0, columns, rows.take(i - 1)) == (
                    ledger.state(),
                    Ok::<Seq<Warning>, InputError>(warnings@),
                ),
            decreases records@.len() - i,
        {
            proof {
                assert(rows.take(i as int).drop_last() =~= rows.take(i - 1));
                assert(rows.take(i as int).last() == all[i as int]);
                assert(all[i as int] == records@[i as int].deep_view());
            }
            let transaction = match parse_record(&columns, &records[i]) {
                Some(t) => t,
                None => {
                    proof {
                        lemma_load_failed_stays(s0, columns, rows, i as int);
                    }
                    return Err(InputError::InvalidRecord(i));
                },
            };
            let result = ledger.process_transaction(&transaction);
            if let Err(e) = result {
                if e.is_recoverable() {
                    warnings.push(Warning { tx: transaction.tx, error: e });
                } else {
                    proof {
                        lemma_load_failed_stays(s0, columns, rows, i as int);
                    }
                    return Err(InputError::Transaction(e));
                }
            }
            i = i + 1;
        }
        assert(rows.take(i - 1) =~= rows);
        Ok((ledger, warnings))
    }

    /// Builds a ledger from delimited text, as `from_records` does from the
    /// records the reader finds in it.
    pub fn from_csv(input: &[u8]) -> (r: Result<(Ledger, Vec<Warning>), InputError>)
        ensures
            match r {
                Ok((ledger, warnings)) => ledger.wf() && load_records(csv_records(input@)) == (
                    ledger.state(),
                    Ok::<Seq<Warning>, InputError>(warnings@),
                ),
                Err(e) => load_records(csv_records(input@)).1 == Err::<
                    Seq<Warning>,
                    InputError,
                >(e),
            },
    {
        match read_records(input) {
            Ok(records) => Ledger::from_records(&records),
            Err(e) => Err(InputError::Csv(e)),
        }
    }
}

} // verus!
