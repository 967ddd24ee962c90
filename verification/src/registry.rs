//! The keyword registry: for each directive name its value kind, whether it
//! may occur more than once, and how its values are validated.

use vstd::prelude::*;
use vstd::string::StringSliceAdditionalSpecFns;
use crate::bytes::{bytes_eq, lower_seq, to_lower};

verus! {

/// The shape of a directive's value.
#[derive(Clone, Copy, Debug, PartialEq, Eq, Structural)]
pub enum ValueKind {
    /// One string.
    Scalar,
    /// An ordered list of strings, one per line of the file.
    List,
    /// An ordered list of name / value pairs, one per line of the file.
    ObjectList,
}

/// How a value is checked when it enters a document.
#[derive(Clone, Copy, Debug, PartialEq, Eq, Structural)]
pub enum Validator {
    /// Every value is accepted.
    Any,
    /// `yes` or `no`, in any case.
    YesNo,
    /// A decimal number between `min` and `max`, both included.
    Number { min: u32, max: u32 },
}

/// Why a validator refused a value.
#[derive(Clone, Copy, Debug, PartialEq, Eq, Structural)]
pub enum ValidationReason {
    NotYesNo,
    NotANumber,
    OutOfRange,
}

/// What the registry knows of one keyword.
#[derive(Clone, Copy, Debug, PartialEq, Eq, Structural)]
pub struct KeywordSpec {
    pub kind: ValueKind,
    /// Whether a second occurrence in one scope is legal.
    pub repeatable: bool,
    pub validator: Validator,
}

/// One line of the registry table.
#[derive(Clone, Copy, Debug)]
pub struct RegistryEntry {
    /// The keyword as it is written in a file. Its lower-case form is the
    /// canonical name under which it is found.
    pub name: &'static str,
    pub spec: KeywordSpec,
}

/// The entry of a keyword.
pub open spec fn entry(name: &'static str, kind: ValueKind, repeatable: bool, validator: Validator)
    -> RegistryEntry {
    RegistryEntry { name, spec: KeywordSpec { kind, repeatable, validator } }
}

/// The registry table.
pub open spec fn registry() -> Seq<RegistryEntry> {
    seq![
        entry("Port", ValueKind::List, true, Validator::Number { min: 1, max: 65535 }),
        entry("ListenAddress", ValueKind::List, true, Validator::Any),
        entry("HostKey", ValueKind::List, true, Validator::Any),
        entry("Subsystem", ValueKind::ObjectList, true, Validator::Any),
        entry("PasswordAuthentication", ValueKind::Scalar, false, Validator::YesNo),
        entry("PubkeyAuthentication", ValueKind::Scalar, false, Validator::YesNo),
        entry("PermitRootLogin", ValueKind::Scalar, false, Validator::Any),
        entry("SyslogFacility", ValueKind::Scalar, false, Validator::Any),
        entry("LogLevel", ValueKind::Scalar, false, Validator::Any),
        entry("AuthorizedKeysFile", ValueKind::Scalar, false, Validator::Any),
        entry("MaxAuthTries", ValueKind::Scalar, false, Validator::Number { min: 1, max: 1000 }),
        entry("Banner", ValueKind::Scalar, true, Validator::Any),
    ]
}

fn make_entry(name: &'static str, kind: ValueKind, repeatable: bool, validator: Validator) -> (r:
    RegistryEntry)
    ensures
        r == entry(name, kind, repeatable, validator),
{
    RegistryEntry { name, spec: KeywordSpec { kind, repeatable, validator } }
}

/// Builds the registry table.
pub fn registry_table() -> (r: Vec<RegistryEntry>)
    ensures
        r@ == registry(),
{
    let mut t: Vec<RegistryEntry> = Vec::new();
    t.push(make_entry("Port", ValueKind::List, true, Validator::Number { min: 1, max: 65535 }));
    t.push(make_entry("ListenAddress", ValueKind::List, true, Validator::Any));
    t.push(make_entry("HostKey", ValueKind::List, true, Validator::Any));
    t.push(make_entry("Subsystem", ValueKind::ObjectList, true, Validator::Any));
    t.push(make_entry("PasswordAuthentication", ValueKind::Scalar, false, Validator::YesNo));
    t.push(make_entry("PubkeyAuthentication", ValueKind::Scalar, false, Validator::YesNo));
    t.push(make_entry("PermitRootLogin", ValueKind::Scalar, false, Validator::Any));
    t.push(make_entry("SyslogFacility", ValueKind::Scalar, false, Validator::Any));
    t.push(make_entry("LogLevel", ValueKind::Scalar, false, Validator::Any));
    t.push(make_entry("AuthorizedKeysFile", ValueKind::Scalar, false, Validator::Any));
    t.push(
        make_entry("MaxAuthTries", ValueKind::Scalar, false, Validator::Number { min: 1, max: 1000 }),
    );
    t.push(make_entry("Banner", ValueKind::Scalar, true, Validator::Any));
    assert(t@ =~= registry());
    t
}

/// A keyword name is a non-empty run of lower-case ASCII letters.
pub open spec fn is_keyword_name(s: Seq<u8>) -> bool {
    s.len() > 0 && forall|i: int| 0 <= i < s.len() ==> 97 <= #[trigger] s[i] <= 122
}

/// Names with a meaning of their own in the grammar or the JSON form; none
/// of them names a directive.
pub open spec fn is_reserved(s: Seq<u8>) -> bool {
    s == "match".spec_bytes() || s == "criteria".spec_bytes()
}

/// The index of the first entry of `entries`, from index `from` on, whose
/// name in lower case is `name`; the length of `entries` where there is
/// none.
pub open spec fn entry_index(entries: Seq<RegistryEntry>, name: Seq<u8>, from: int) -> int
    decreases entries.len() - from,
{
    if from < 0 || from >= entries.len() {
        entries.len() as int
    } else if lower_seq(entries[from].name.spec_bytes()) == name {
        from
    } else {
        entry_index(entries, name, from + 1)
    }
}

/// Where the registry holds a canonical name; the length of the registry
/// where it does not.
pub open spec fn registry_index(name: Seq<u8>) -> int {
    if !is_keyword_name(name) || is_reserved(name) {
        registry().len() as int
    } else {
        entry_index(registry(), name, 0)
    }
}

/// What the registry holds for a name in canonical (lower-case) form.
pub open spec fn lookup_canonical(name: Seq<u8>) -> Option<KeywordSpec> {
    let i = registry_index(name);
    if 0 <= i < registry().len() {
        Some(registry()[i].spec)
    } else {
        None
    }
}

/// The form in which a canonical name is written in a file: the registry's
/// spelling, or the name itself where the registry does not hold it.
pub open spec fn display_of(name: Seq<u8>) -> Seq<u8> {
    let i = registry_index(name);
    if 0 <= i < registry().len() {
        registry()[i].name.spec_bytes()
    } else {
        name
    }
}

pub proof fn lemma_entry_index(entries: Seq<RegistryEntry>, name: Seq<u8>, from: int)
    requires
        0 <= from,
    ensures
        from <= entry_index(entries, name, from) || entry_index(entries, name, from)
            == entries.len(),
        entry_index(entries, name, from) <= entries.len(),
        entry_index(entries, name, from) < entries.len() ==> lower_seq(
            entries[entry_index(entries, name, from)].name.spec_bytes(),
        ) == name,
    decreases entries.len() - from,
{
    if from < entries.len() && lower_seq(entries[from].name.spec_bytes()) != name {
        lemma_entry_index(entries, name, from + 1);
    }
}

/// A registered name is a keyword name, is not reserved, and is the lower
/// case of its written form.
pub proof fn lemma_registered(name: Seq<u8>)
    requires
        lookup_canonical(name) is Some,
    ensures
        is_keyword_name(name),
        !is_reserved(name),
        lower_seq(display_of(name)) == name,
        lower_seq(name) == name,
        display_of(name).len() == name.len(),
{
    lemma_entry_index(registry(), name, 0);
    assert(lower_seq(name) =~= name);
    assert(lower_seq(display_of(name)).len() == display_of(name).len());
}

/// What the registry holds for a name, whatever its case.
pub open spec fn spec_lookup(name: Seq<u8>) -> Option<KeywordSpec> {
    lookup_canonical(lower_seq(name))
}

/// Whether `s` is a keyword name.
pub fn check_keyword_name(s: &[u8]) -> (r: bool)
    ensures
        r == is_keyword_name(s@),
{
    if s.len() == 0 {
        return false;
    }
    let mut i: usize = 0;
    while i < s.len()
        invariant
            0 <= i <= s@.len(),
            forall|j: int| 0 <= j < i ==> 97 <= #[trigger] s@[j] <= 122,
        decreases s@.len() - i,
    {
        if s[i] < 97 || s[i] > 122 {
            return false;
        }
        i += 1;
    }
    true
}

/// Whether `s` is one of the reserved names.
pub fn check_reserved(s: &[u8]) -> (r: bool)
    ensures
        r == is_reserved(s@),
{
    bytes_eq(s, "match".as_bytes()) || bytes_eq(s, "criteria".as_bytes())
}

/// Finds a canonical name in the registry table.
pub fn find_index(name: &[u8]) -> (r: (Vec<RegistryEntry>, usize))
    ensures
        r.0@ == registry(),
        r.1 == registry_index(name@),
{
    let table = registry_table();
    if !check_keyword_name(name) || check_reserved(name) {
        let n = table.len();
        return (table, n);
    }
    let mut i: usize = 0;
    while i < table.len()
        invariant
            0 <= i <= table@.len(),
            table@ == registry(),
            is_keyword_name(name@),
            !is_reserved(name@),
            entry_index(registry(), name@, 0) == entry_index(registry(), name@, i as int),
        decreases table@.len() - i,
    {
        let folded = to_lower(table[i].name.as_bytes());
        let found = bytes_eq(folded.as_slice(), name);
        assert(entry_index(registry(), name@, i as int) == if found {
            i as int
        } else {
            entry_index(registry(), name@, i + 1)
        });
        if found {
            return (table, i);
        }
        i += 1;
    }
    (table, i)
}

/// Looks a canonical name up in the registry.
pub fn lookup_lower(name: &[u8]) -> (r: Option<KeywordSpec>)
    ensures
        r == lookup_canonical(name@),
{
    let (table, i) = find_index(name);
    if i < table.len() {
        Some(table[i].spec)
    } else {
        None
    }
}

/// The form in which a canonical name is written in a file.
pub fn display_name(name: &[u8]) -> (r: Vec<u8>)
    ensures
        r@ == display_of(name@),
{
    let (table, i) = find_index(name);
    if i < table.len() {
        let shown = table[i].name.as_bytes();
        let r = crate::bytes::copy_range(shown, 0, shown.len());
        assert(r@ =~= shown@);
        r
    } else {
        let r = crate::bytes::copy_range(name, 0, name.len());
        assert(r@ =~= name@);
        r
    }
}

/// Looks a name up in the registry, whatever its case.
pub fn lookup(name: &[u8]) -> (r: Option<KeywordSpec>)
    ensures
        r == spec_lookup(name@),
{
    let canonical = to_lower(name);
    lookup_lower(canonical.as_slice())
}

/// Whether `b` is a decimal digit.
pub open spec fn is_digit(b: u8) -> bool {
    48 <= b && b <= 57
}

/// Whether every byte of `s` is a decimal digit.
pub open spec fn all_digits(s: Seq<u8>) -> bool {
    forall|i: int| 0 <= i < s.len() ==> is_digit(#[trigger] s[i])
}

/// The value of a digit; of any other byte, zero.
pub open spec fn digit_value(b: u8) -> nat {
    if is_digit(b) {
        (b - 48) as nat
    } else {
        0
    }
}

/// The number that a run of digits writes in base ten.
pub open spec fn decimal(s: Seq<u8>) -> nat
    decreases s.len(),
{
    if s.len() == 0 {
        0
    } else {
        decimal(s.drop_last()) * 10 + digit_value(s.last())
    }
}

/// Whether `s` is `yes` or `no`, in any case.
pub open spec fn is_yes_no(s: Seq<u8>) -> bool {
    lower_seq(s) == "yes".spec_bytes() || lower_seq(s) == "no".spec_bytes()
}

/// Why `validator` refuses `value`, or `None` where it accepts it.
pub open spec fn validation_failure(validator: Validator, value: Seq<u8>) -> Option<
    ValidationReason,
> {
    match validator {
        Validator::Any => None,
        Validator::YesNo => if is_yes_no(value) {
            None
        } else {
            Some(ValidationReason::NotYesNo)
        },
        Validator::Number { min, max } => if value.len() == 0 || !all_digits(value) {
            Some(ValidationReason::NotANumber)
        } else if min <= decimal(value) && decimal(value) <= max {
            None
        } else {
            Some(ValidationReason::OutOfRange)
        },
    }
}

/// A number does not shrink when digits are written behind it.
pub proof fn lemma_decimal_prefix(s: Seq<u8>, i: int)
    requires
        0 <= i <= s.len(),
    ensures
        decimal(s.take(i)) <= decimal(s),
    decreases s.len() - i,
{
    if i == s.len() {
        assert(s.take(i) =~= s);
    } else {
        let t = s.drop_last();
        assert(t.take(i) =~= s.take(i));
        lemma_decimal_prefix(t, i);
    }
}

fn check_number(value: &[u8], min: u32, max: u32) -> (r: Option<ValidationReason>)
    ensures
        r == validation_failure(Validator::Number { min, max }, value@),
{
    if value.len() == 0 {
        return Some(ValidationReason::NotANumber);
    }
    let mut i: usize = 0;
    while i < value.len()
        invariant
            0 <= i <= value@.len(),
            forall|j: int| 0 <= j < i ==> is_digit(#[trigger] value@[j]),
        decreases value@.len() - i,
    {
        if value[i] < 48 || value[i] > 57 {
            return Some(ValidationReason::NotANumber);
        }
        i += 1;
    }
    let mut acc: u64 = 0;
    let mut k: usize = 0;
    assert(value@.take(0).len() == 0);
    while k < value.len()
        invariant
            0 <= k <= value@.len(),
            value@.len() > 0,
            all_digits(value@),
            acc == decimal(value@.take(k as int)),
            acc <= max,
        decreases value@.len() - k,
    {
        let d: u64 = (value[k] - 48) as u64;
        let next: u64 = acc * 10 + d;
        proof {
            let t = value@.take(k + 1);
            assert(t.drop_last() =~= value@.take(k as int));
            assert(t.last() == value@[k as int]);
            assert(next == decimal(t));
            lemma_decimal_prefix(value@, k + 1);
        }
        if next > max as u64 {
            return Some(ValidationReason::OutOfRange);
        }
        acc = next;
        k += 1;
    }
    assert(value@.take(k as int) =~= value@);
    if acc < min as u64 {
        Some(ValidationReason::OutOfRange)
    } else {
        None
    }
}

/// Checks a value against a validator.
pub fn validate(validator: Validator, value: &[u8]) -> (r: Option<ValidationReason>)
    ensures
        r == validation_failure(validator, value@),
{
    match validator {
        Validator::Any => None,
        Validator::YesNo => {
            let folded = to_lower(value);
            if bytes_eq(folded.as_slice(), "yes".as_bytes()) || bytes_eq(
                folded.as_slice(),
                "no".as_bytes(),
            ) {
                None
            } else {
                Some(ValidationReason::NotYesNo)
            }
        },
        Validator::Number { min, max } => check_number(value, min, max),
    }
}

} // verus!
