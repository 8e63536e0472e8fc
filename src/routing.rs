//! The routing-table registry: a shared text file of `<id> <name>` lines that
//! gives each policy routing table its number.
use vstd::prelude::*;
use crate::classifier::NETCLS_CLASSID;
use crate::split::Error;
use crate::text::{
    all_digits, decimal, decimal_bytes, digits_value, is_digit, lemma_decimal_digits,
    lemma_digits_value_nonneg, lemma_digits_value_prefix, lines_after, lines_of, split_lines,
    views,
};

verus! {

/// Number the table is given when the registry does not name it yet.
pub const DEFAULT_TABLE_ID: u32 = 19;

/// `mullvad_exclusions`, the name under which the table is registered.
pub open spec fn table_name_spec() -> Seq<u8> {
    seq![
        109u8, 117u8, 108u8, 108u8, 118u8, 97u8, 100u8, 95u8, 101u8,
        120u8, 99u8, 108u8, 117u8, 115u8, 105u8, 111u8, 110u8, 115u8,
    ]
}

#[derive(Clone, Copy, Debug, PartialEq, Eq)]
pub enum ByteClass {
    Space,
    Digit,
    Word,
}

/// Whitespace, decimal digits, and word characters (letters, digits, `_`).
pub open spec fn in_class(c: ByteClass, b: u8) -> bool {
    match c {
        ByteClass::Space => b == 32 || (9 <= b <= 13),
        ByteClass::Digit => is_digit(b),
        ByteClass::Word => is_digit(b) || (65 <= b <= 90) || (97 <= b <= 122) || b == 95,
    }
}

/// End of the longest run of bytes of class `c` that starts at `i`.
pub open spec fn run_end(s: Seq<u8>, i: int, c: ByteClass) -> int
    decreases s.len() - i,
{
    if 0 <= i < s.len() && in_class(c, s[i]) {
        run_end(s, i + 1, c)
    } else {
        i
    }
}

/// A registry line that starts, after optional whitespace, with a number, then
/// whitespace, then a name of word characters: the number's digits and the name.
/// Anything after the name is ignored; any other line is no entry.
pub open spec fn entry_of(line: Seq<u8>) -> Option<(Seq<u8>, Seq<u8>)> {
    let a = run_end(line, 0, ByteClass::Space);
    let b = run_end(line, a, ByteClass::Digit);
    let c = run_end(line, b, ByteClass::Space);
    let d = run_end(line, c, ByteClass::Word);
    if a < b && b < c && c < d {
        Some((line.subrange(a, b), line.subrange(c, d)))
    } else {
        None
    }
}

/// Digits of the first entry among `lines` whose name is `name`.
pub open spec fn registered_id(lines: Seq<Seq<u8>>, name: Seq<u8>) -> Option<Seq<u8>>
    decreases lines.len(),
{
    if lines.len() == 0 {
        None
    } else {
        match entry_of(lines[0]) {
            Some((d, n)) => if n == name {
                Some(d)
            } else {
                registered_id(lines.drop_first(), name)
            },
            None => registered_id(lines.drop_first(), name),
        }
    }
}

/// The line appended to register the table under number `id`; a newline goes
/// first when the registry's last line is unterminated.
pub open spec fn appended_entry(registry: Seq<u8>, id: nat) -> Seq<u8> {
    let sep = if registry.len() > 0 && registry.last() != 10 { seq![10u8] } else { seq![] };
    sep + decimal(id) + seq![32u8] + table_name_spec() + seq![10u8]
}

/// Number and pending registry write after scanning `registry`.
pub open spec fn registration_of(registry: Seq<u8>) -> Option<(int, Seq<u8>)> {
    match registered_id(lines_of(registry), table_name_spec()) {
        Some(d) => if digits_value(d) <= u32::MAX {
            Some((digits_value(d), seq![]))
        } else {
            None
        },
        None => Some((DEFAULT_TABLE_ID as int, appended_entry(registry, DEFAULT_TABLE_ID as nat))),
    }
}

pub fn table_name() -> (r: Vec<u8>)
    ensures
        r@ == table_name_spec(),
{
    let r: Vec<u8> = vec![
        109u8, 117u8, 108u8, 108u8, 118u8, 97u8, 100u8, 95u8, 101u8,
        120u8, 99u8, 108u8, 117u8, 115u8, 105u8, 111u8, 110u8, 115u8,
    ];
    assert(r@ =~= table_name_spec());
    r
}

fn in_class_exec(c: ByteClass, b: u8) -> (r: bool)
    ensures
        r == in_class(c, b),
{
    match c {
        ByteClass::Space => b == 32u8 || (9u8 <= b && b <= 13u8),
        ByteClass::Digit => 48u8 <= b && b <= 57u8,
        ByteClass::Word => (48u8 <= b && b <= 57u8) || (65u8 <= b && b <= 90u8) || (97u8
            <= b && b <= 122u8) || b == 95u8,
    }
}

fn run_end_exec(s: &[u8], i: usize, c: ByteClass) -> (r: usize)
    requires
        i <= s@.len(),
    ensures
        r as int == run_end(s@, i as int, c),
        i <= r <= s@.len(),
{
    let mut j: usize = i;
    while j < s.len() && in_class_exec(c, s[j])
        invariant
            i <= j <= s@.len(),
            run_end(s@, i as int, c) == run_end(s@, j as int, c),
        decreases s@.len() - j,
    {
        j = j + 1;
    }
    j
}

fn copy_range(s: &[u8], a: usize, b: usize) -> (r: Vec<u8>)
    requires
        a <= b <= s@.len(),
    ensures
        r@ == s@.subrange(a as int, b as int),
{
    let mut r: Vec<u8> = Vec::new();
    let mut k: usize = a;
    while k < b
        invariant
            a <= k <= b,
            b <= s@.len(),
            r@ == s@.subrange(a as int, k as int),
        decreases b - k,
    {
        r.push(s[k]);
        k = k + 1;
        assert(r@ == s@.subrange(a as int, k as int));
    }
    r
}

fn same_bytes(x: &[u8], y: &[u8]) -> (r: bool)
    ensures
        r == (x@ == y@),
{
    if x.len() != y.len() {
        return false;
    }
    let mut k: usize = 0;
    while k < x.len()
        invariant
            k <= x@.len(),
            x@.len() == y@.len(),
            x@.subrange(0, k as int) == y@.subrange(0, k as int),
        decreases x@.len() - k,
    {
        if x[k] != y[k] {
            return false;
        }
        assert(x@.subrange(0, k + 1) == x@.subrange(0, k as int).push(x@[k as int]));
        assert(y@.subrange(0, k + 1) == y@.subrange(0, k as int).push(y@[k as int]));
        k = k + 1;
    }
    assert(x@ == x@.subrange(0, k as int));
    assert(y@ == y@.subrange(0, k as int));
    true
}

/// Splits one registry line into the digits of its number and its name.
pub fn registry_entry(line: &[u8]) -> (r: Option<(Vec<u8>, Vec<u8>)>)
    ensures
        r matches Some((d, n)) ==> entry_of(line@) == Some((d@, n@)),
        r is None ==> entry_of(line@) is None,
{
    let a = run_end_exec(line, 0, ByteClass::Space);
    let b = run_end_exec(line, a, ByteClass::Digit);
    let c = run_end_exec(line, b, ByteClass::Space);
    let d = run_end_exec(line, c, ByteClass::Word);
    if a < b && b < c && c < d {
        Some((copy_range(line, a, b), copy_range(line, c, d)))
    } else {
        None
    }
}

/// Digits of the first entry in `lines` registered under `name`.
pub fn find_registered_id(lines: &Vec<Vec<u8>>, name: &[u8]) -> (r: Option<Vec<u8>>)
    ensures
        r matches Some(d) ==> registered_id(views(lines@), name@) == Some(d@),
        r is None ==> registered_id(views(lines@), name@) is None,
{
    let ghost all = views(lines@);
    let mut i: usize = 0;
    assert(all.subrange(0, all.len() as int) == all);
    while i < lines.len()
        invariant
            i <= lines@.len(),
            all == views(lines@),
            registered_id(all, name@) == registered_id(all.subrange(i as int, all.len() as int), name@),
        decreases lines@.len() - i,
    {
        let ghost rest = all.subrange(i as int, all.len() as int);
        assert(rest.drop_first() == all.subrange(i + 1, all.len() as int));
        assert(rest[0] == lines@[i as int]@);
        match registry_entry(lines[i].as_slice()) {
            Some((d, n)) => {
                if same_bytes(n.as_slice(), name) {
                    return Some(d);
                }
            },
            None => {},
        }
        i = i + 1;
    }
    None
}

/// Value of a run of digits, or `None` past `u32::MAX`.
pub fn digits_to_u32(d: &[u8]) -> (r: Option<u32>)
    requires
        all_digits(d@),
    ensures
        r matches Some(v) ==> digits_value(d@) == v as int,
        r is None ==> digits_value(d@) > u32::MAX,
{
    let mut acc: u64 = 0;
    let mut i: usize = 0;
    while i < d.len()
        invariant
            i <= d@.len(),
            all_digits(d@),
            acc as int == digits_value(d@.subrange(0, i as int)),
            acc <= u32::MAX,
        decreases d@.len() - i,
    {
        let ghost next = d@.subrange(0, i + 1);
        assert(next.drop_last() == d@.subrange(0, i as int));
        assert(next.last() == d[i as int]);
        assert(is_digit(d@[i as int]));
        let value: u64 = acc * 10 + (d[i] - 48u8) as u64;
        if value > 4294967295u64 {
            proof {
                lemma_digits_value_prefix(d@, i + 1);
            }
            return None;
        }
        acc = value;
        i = i + 1;
    }
    assert(d@.subrange(0, i as int) == d@);
    Some(acc as u32)
}

proof fn lemma_run_end(s: Seq<u8>, i: int, c: ByteClass)
    requires
        0 <= i <= s.len(),
    ensures
        i <= run_end(s, i, c) <= s.len(),
        forall|k: int| i <= k < run_end(s, i, c) ==> in_class(c, #[trigger] s[k]),
        run_end(s, i, c) < s.len() ==> !in_class(c, s[run_end(s, i, c)]),
    decreases s.len() - i,
{
    if i < s.len() && in_class(c, s[i]) {
        lemma_run_end(s, i + 1, c);
    }
}

/// The run of a class found from `i` ends at `j` when every byte in between
/// belongs to the class and the byte at `j`, if any, does not.
proof fn lemma_run_end_at(s: Seq<u8>, i: int, j: int, c: ByteClass)
    requires
        0 <= i <= j <= s.len(),
        forall|k: int| i <= k < j ==> in_class(c, #[trigger] s[k]),
        j < s.len() ==> !in_class(c, s[j]),
    ensures
        run_end(s, i, c) == j,
    decreases j - i,
{
    if i < j {
        lemma_run_end_at(s, i + 1, j, c);
    }
}

/// The digits of an entry are decimal digits.
proof fn lemma_entry_digits(line: Seq<u8>)
    ensures
        entry_of(line) matches Some((d, n)) ==> all_digits(d),
{
    let a = run_end(line, 0, ByteClass::Space);
    lemma_run_end(line, 0, ByteClass::Space);
    lemma_run_end(line, a, ByteClass::Digit);
    let b = run_end(line, a, ByteClass::Digit);
    let d = line.subrange(a, b);
    assert forall|k: int| 0 <= k < d.len() implies is_digit(#[trigger] d[k]) by {
        assert(d[k] == line[a + k]);
        assert(in_class(ByteClass::Digit, line[a + k]));
    }
}

/// Entry line for the table under number `id`, with its newline.
fn entry_line(registry: &[u8], id: u32) -> (r: Vec<u8>)
    ensures
        r@ == appended_entry(registry@, id as nat),
{
    let mut r: Vec<u8> = Vec::new();
    if registry.len() > 0 && registry[registry.len() - 1] != 10u8 {
        r.push(10u8);
    }
    let mut digits = decimal_bytes(id);
    r.append(&mut digits);
    r.push(32u8);
    let mut name = table_name();
    r.append(&mut name);
    r.push(10u8);
    assert(r@ =~= appended_entry(registry@, id as nat));
    r
}

/// A policy rule: packets carrying `fwmark` are routed by table `table`.
#[derive(Clone, Copy, Debug, PartialEq, Eq)]
pub struct RoutingRule {
    pub fwmark: u32,
    pub table: u32,
}

/// The exclusion routing table: the number it is registered under.
#[derive(Clone, Copy, Debug, PartialEq, Eq)]
pub struct RoutingTable {
    pub table_id: u32,
}

impl RoutingTable {
    /// A table that has not consulted the registry yet: the default number.
    pub fn new() -> (r: RoutingTable)
        ensures
            r.table_id == DEFAULT_TABLE_ID,
    {
        RoutingTable { table_id: DEFAULT_TABLE_ID }
    }

    /// Scans the registry's contents for the table's entry. When there is one, its
    /// number is adopted and nothing is to be written; otherwise the table keeps
    /// the default number and the returned bytes are to be appended to the
    /// registry. An entry whose number exceeds `u32::MAX` is an error.
    pub fn ensure_table_registered(&mut self, registry: &[u8]) -> (r: Result<Vec<u8>, Error>)
        ensures
            match registration_of(registry@) {
                Some((id, w)) => r matches Ok(v) && v@ == w && final(self).table_id == id,
                None => r == Err::<Vec<u8>, Error>(Error::RoutingTable) && *final(self) == *old(self),
            },
    {
        let lines = split_lines(registry);
        let name = table_name();
        match find_registered_id(&lines, name.as_slice()) {
            Some(d) => {
                proof {
                    lemma_registered_entry(views(lines@), table_name_spec());
                }
                match digits_to_u32(d.as_slice()) {
                    Some(id) => {
                        self.table_id = id;
                        Ok(Vec::new())
                    },
                    None => Err(Error::RoutingTable),
                }
            },
            None => {
                self.table_id = DEFAULT_TABLE_ID;
                Ok(entry_line(registry, DEFAULT_TABLE_ID))
            },
        }
    }

    /// The rule that sends packets of excluded processes through this table.
    pub fn routing_rule(&self) -> (r: RoutingRule)
        ensures
            r.fwmark == NETCLS_CLASSID,
            r.table == self.table_id,
    {
        RoutingRule { fwmark: NETCLS_CLASSID, table: self.table_id }
    }
}

/// Registered numbers are runs of decimal digits.
proof fn lemma_registered_entry(lines: Seq<Seq<u8>>, name: Seq<u8>)
    ensures
        registered_id(lines, name) matches Some(d) ==> all_digits(d),
    decreases lines.len(),
{
    if lines.len() > 0 {
        lemma_entry_digits(lines[0]);
        lemma_registered_entry(lines.drop_first(), name);
    }
}

proof fn lemma_lines_concat(p: Seq<u8>, q: Seq<u8>, cur: Seq<u8>)
    requires
        p.len() > 0,
        p.last() == 10,
    ensures
        lines_after(p + q, cur) == lines_after(p, cur) + lines_of(q),
    decreases p.len(),
{
    assert((p + q).drop_first() == p.drop_first() + q);
    assert((p + q)[0] == p[0]);
    if p.len() == 1 {
        assert(p.drop_first() + q == q);
        assert(lines_after(p.drop_first(), seq![]) == Seq::<Seq<u8>>::empty());
    } else if p[0] == 10 {
        lemma_lines_concat(p.drop_first(), q, seq![]);
    } else {
        lemma_lines_concat(p.drop_first(), q, cur.push(p[0]));
    }
}

/// Ending an unterminated last line with a newline keeps the lines the same.
proof fn lemma_lines_close(s: Seq<u8>, cur: Seq<u8>)
    requires
        s.len() > 0,
        s.last() != 10,
    ensures
        lines_after(s.push(10), cur) == lines_after(s, cur),
    decreases s.len(),
{
    assert(s.push(10).drop_first() == s.drop_first().push(10));
    assert(s.push(10)[0] == s[0]);
    if s.len() == 1 {
        let c = cur.push(s[0]);
        assert(s.drop_first().push(10) == seq![10u8]);
        assert(seq![10u8].drop_first() == Seq::<u8>::empty());
        assert(lines_after(seq![10u8], c) == seq![c] + lines_after(Seq::<u8>::empty(), seq![]));
        assert(seq![c] + Seq::<Seq<u8>>::empty() =~= seq![c]);
        assert(s.drop_first() =~= Seq::<u8>::empty());
        assert(s[0] == s.last());
        assert(lines_after(s, cur) == lines_after(s.drop_first(), c));
    } else if s[0] == 10 {
        assert(s.drop_first().last() == s.last());
        lemma_lines_close(s.drop_first(), seq![]);
    } else {
        lemma_lines_close(s.drop_first(), cur.push(s[0]));
    }
}

/// Bytes without a newline, then a newline, make one line.
proof fn lemma_single_line(s: Seq<u8>, cur: Seq<u8>)
    requires
        forall|k: int| 0 <= k < s.len() ==> #[trigger] s[k] != 10,
    ensures
        lines_after(s.push(10), cur) == seq![cur + s],
    decreases s.len(),
{
    if s.len() == 0 {
        assert(s.push(10) =~= seq![10u8]);
        assert(seq![10u8].drop_first() =~= Seq::<u8>::empty());
        assert(cur + s =~= cur);
        assert(seq![cur] + Seq::<Seq<u8>>::empty() =~= seq![cur]);
        assert(lines_after(seq![10u8], cur) == seq![cur] + lines_after(Seq::<u8>::empty(), seq![]));
    } else {
        assert(s.push(10).drop_first() == s.drop_first().push(10));
        assert(s.push(10)[0] == s[0]);
        assert forall|k: int| 0 <= k < s.drop_first().len() implies #[trigger] s.drop_first()[k] != 10 by {
            assert(s.drop_first()[k] == s[k + 1]);
        }
        lemma_single_line(s.drop_first(), cur.push(s[0]));
        assert(cur.push(s[0]) + s.drop_first() =~= cur + s);
    }
}

proof fn lemma_registered_id_append(l1: Seq<Seq<u8>>, l2: Seq<Seq<u8>>, name: Seq<u8>)
    requires
        registered_id(l1, name) is None,
    ensures
        registered_id(l1 + l2, name) == registered_id(l2, name),
    decreases l1.len(),
{
    if l1.len() == 0 {
        assert(l1 + l2 == l2);
    } else {
        assert((l1 + l2).drop_first() == l1.drop_first() + l2);
        assert((l1 + l2)[0] == l1[0]);
        lemma_registered_id_append(l1.drop_first(), l2, name);
    }
}

/// The line written for number `id` reads back as an entry for the table.
proof fn lemma_entry_of_written(id: nat)
    ensures
        entry_of(decimal(id) + seq![32u8] + table_name_spec()) == Some((decimal(id), table_name_spec())),
{
    let d = decimal(id);
    let nm = table_name_spec();
    let line = d + seq![32u8] + nm;
    lemma_decimal_digits(id);
    let n = d.len() as int;
    assert(line[0] == d[0]);
    assert(is_digit(d[0]));
    lemma_run_end_at(line, 0, 0, ByteClass::Space);
    assert forall|k: int| 0 <= k < n implies in_class(ByteClass::Digit, #[trigger] line[k]) by {
        assert(line[k] == d[k]);
        assert(is_digit(d[k]));
    }
    assert(line[n] == 32u8);
    lemma_run_end_at(line, 0, n, ByteClass::Digit);
    assert(line[n + 1] == nm[0]);
    lemma_run_end_at(line, n, n + 1, ByteClass::Space);
    assert forall|k: int| n + 1 <= k < line.len() implies in_class(ByteClass::Word, #[trigger] line[k]) by {
        assert(line[k] == nm[k - n - 1]);
    }
    lemma_run_end_at(line, n + 1, line.len() as int, ByteClass::Word);
    assert(line.subrange(0, n) == d);
    assert(line.subrange(n + 1, line.len() as int) == nm);
}

/// Registering is idempotent: once the bytes that the first registration asks
/// for are appended, scanning again finds the entry, keeps the same number and
/// asks for no further write.
pub proof fn lemma_registration_idempotent(registry: Seq<u8>)
    ensures
        registration_of(registry) matches Some((id, w)) ==> registration_of(registry + w) == Some(
            (id, Seq::<u8>::empty()),
        ),
{
    let nm = table_name_spec();
    if registered_id(lines_of(registry), nm) is None {
        let id = DEFAULT_TABLE_ID as nat;
        let e = decimal(id) + seq![32u8] + nm;
        let w = appended_entry(registry, id);
        lemma_decimal_digits(id);
        assert forall|k: int| 0 <= k < e.len() implies #[trigger] e[k] != 10 by {
            if k < decimal(id).len() {
                assert(e[k] == decimal(id)[k]);
                assert(is_digit(decimal(id)[k]));
            } else if k > decimal(id).len() {
                assert(e[k] == nm[k - decimal(id).len() - 1]);
            }
        }
        lemma_single_line(e, seq![]);
        assert(Seq::<u8>::empty() + e == e);
        let lines_new = lines_of(registry + w);
        if registry.len() == 0 {
            assert(registry + w == e.push(10));
            assert(lines_of(registry) == Seq::<Seq<u8>>::empty());
            assert(lines_new == lines_of(registry) + seq![e]);
        } else if registry.last() == 10 {
            assert(registry + w == registry + e.push(10));
            lemma_lines_concat(registry, e.push(10), seq![]);
        } else {
            let closed = registry.push(10);
            assert(registry + w == closed + e.push(10));
            lemma_lines_concat(closed, e.push(10), seq![]);
            lemma_lines_close(registry, seq![]);
        }
        assert(lines_new == lines_of(registry) + seq![e]);
        lemma_registered_id_append(lines_of(registry), seq![e], nm);
        lemma_entry_of_written(id);
        assert(seq![e][0] == e);
        assert(seq![e].drop_first() == Seq::<Seq<u8>>::empty());
        assert(registered_id(seq![e], nm) == Some(decimal(id)));
    } else {
        assert(registry + Seq::<u8>::empty() == registry);
    }
}

/// Lines that are not entries (blank lines, comments, a name without a number)
/// do not stop the scan: the entry found is the one in the lines that follow.
pub proof fn lemma_non_entry_skipped(line: Seq<u8>, rest: Seq<Seq<u8>>, name: Seq<u8>)
    requires
        entry_of(line) is None,
    ensures
        registered_id(seq![line] + rest, name) == registered_id(rest, name),
{
    assert((seq![line] + rest).drop_first() == rest);
    assert((seq![line] + rest)[0] == line);
}

} // verus!
