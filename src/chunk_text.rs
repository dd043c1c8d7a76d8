//! Chunk names as text: formatting, parsing, and the laws that make the
//! two inverse on valid names.
use crate::chunk::{ChunkComponent, ChunkName, Part};
use vstd::prelude::*;

verus! {

/// The ten decimal digits, in order.
pub open spec fn digits() -> Seq<char> {
    seq!['0', '1', '2', '3', '4', '5', '6', '7', '8', '9']
}

/// The decimal digits of `n`, without leading zeros.
pub open spec fn decimal(n: nat) -> Seq<char>
    decreases n,
{
    if n < 10 {
        seq![digits()[n as int]]
    } else {
        decimal(n / 10).push(digits()[(n % 10) as int])
    }
}

/// `n` in decimal, zero-padded to at least three digits.
pub open spec fn padded(n: nat) -> Seq<char> {
    if n < 10 {
        seq!['0', '0'] + decimal(n)
    } else if n < 100 {
        seq!['0'] + decimal(n)
    } else {
        decimal(n)
    }
}

pub open spec fn base_prefix() -> Seq<char> {
    seq!['r', 'e', '_', 'c', 'h', 'u', 'n', 'k', '_']
}

pub open spec fn dlc_prefix() -> Seq<char> {
    seq!['r', 'e', '_', 'd', 'l', 'c', '_']
}

pub open spec fn patch_prefix() -> Seq<char> {
    seq!['p', 'a', 't', 'c', 'h', '_']
}

pub open spec fn sub_prefix() -> Seq<char> {
    seq!['s', 'u', 'b', '_']
}

/// The container extension that follows every component.
pub open spec fn pak() -> Seq<char> {
    seq!['p', 'a', 'k']
}

/// The token that a part is written as, before its extension.
pub open spec fn part_token(p: Part) -> Seq<char> {
    match p {
        Part::Base(id) => base_prefix() + padded(id as nat),
        Part::Dlc(s) => dlc_prefix() + s,
        Part::Patch(id) => patch_prefix() + padded(id as nat),
        Part::Sub(id) => sub_prefix() + padded(id as nat),
        Part::SubPatch(id) => patch_prefix() + padded(id as nat),
    }
}

/// The text of one part: its token, a dot and the extension.
pub open spec fn part_text(p: Part) -> Seq<char> {
    part_token(p) + seq!['.'] + pak()
}

/// The file name of a sequence of parts: their texts joined by dots.
pub open spec fn render(parts: Seq<Part>) -> Seq<char>
    decreases parts.len(),
{
    if parts.len() == 0 {
        Seq::empty()
    } else if parts.len() == 1 {
        part_text(parts[0])
    } else {
        render(parts.drop_last()) + seq!['.'] + part_text(parts.last())
    }
}

fn append_decimal(out: &mut String, n: u32)
    ensures
        final(out)@ == old(out)@ + decimal(n as nat),
    decreases n,
{
    if n >= 10 {
        append_decimal(out, n / 10);
    }
    let d: usize = (n % 10) as usize;
    let table = "0123456789";
    proof {
        reveal_strlit("0123456789");
    }
    assert(table@ =~= digits());
    out.append(table.substring_char(d, d + 1));
    assert(table@.subrange(d as int, d + 1) =~= seq![digits()[d as int]]);
    assert(final(out)@ =~= old(out)@ + decimal(n as nat));
}

fn append_padded(out: &mut String, n: u32)
    ensures
        final(out)@ == old(out)@ + padded(n as nat),
{
    proof {
        reveal_strlit("00");
        reveal_strlit("0");
    }
    if n < 10 {
        out.append("00");
    } else if n < 100 {
        out.append("0");
    }
    append_decimal(out, n);
    assert(final(out)@ =~= old(out)@ + padded(n as nat));
}

fn append_part(out: &mut String, c: &ChunkComponent)
    ensures
        final(out)@ == old(out)@ + part_text(c@),
{
    proof {
        reveal_strlit("re_chunk_");
        reveal_strlit("re_dlc_");
        reveal_strlit("patch_");
        reveal_strlit("sub_");
        reveal_strlit(".pak");
    }
    match c {
        ChunkComponent::Base(id) => {
            out.append("re_chunk_");
            append_padded(out, *id);
        },
        ChunkComponent::Dlc(s) => {
            out.append("re_dlc_");
            out.append(s.as_str());
        },
        ChunkComponent::Patch(id) => {
            out.append("patch_");
            append_padded(out, *id);
        },
        ChunkComponent::Sub(id) => {
            out.append("sub_");
            append_padded(out, *id);
        },
        ChunkComponent::SubPatch(id) => {
            out.append("patch_");
            append_padded(out, *id);
        },
    }
    out.append(".pak");
    assert(final(out)@ =~= old(out)@ + part_text(c@));
}

impl ChunkName {
    /// The file name: each component as `<token>.pak`, joined by dots,
    /// numeric ids zero-padded to three digits.
    pub fn to_string(&self) -> (r: String)
        ensures
            r@ == render(self@),
    {
        let mut out = String::new();
        let mut i: usize = 0;
        while i < self.components.len()
            invariant
                i <= self.components.len(),
                out@ == render(self@.subrange(0, i as int)),
            decreases self.components.len() - i,
        {
            let ghost before = out@;
            proof {
                reveal_strlit(".");
            }
            if i > 0 {
                out.append(".");
            }
            append_part(&mut out, &self.components[i]);
            let ghost next = self@.subrange(0, i + 1);
            assert(next.drop_last() =~= self@.subrange(0, i as int));
            assert(next.last() == self.components@[i as int]@);
            if i == 0 {
                assert(before =~= Seq::<char>::empty());
                assert(out@ =~= render(next));
            } else {
                assert(".".view() =~= seq!['.']);
                assert(out@ =~= render(next));
            }
            i += 1;
        }
        assert(self@.subrange(0, self@.len() as int) =~= self@);
        out
    }
}

/// Why a text is not a chunk name.
#[derive(Debug, Clone, Copy, PartialEq, Eq, Structural)]
pub enum ChunkNameError {
    /// Not a non-zero even number of dot-separated tokens, or an extension
    /// other than `pak`.
    InvalidFormat,
    /// A component token with no known prefix.
    InvalidComponent,
    /// A numeric id that is not a `u32`.
    InvalidNumericId,
}

/// The dot-separated tokens of a text; a text without dots is one token.
pub open spec fn split_dots(s: Seq<char>) -> Seq<Seq<char>>
    decreases s.len(),
{
    if s.len() == 0 {
        seq![Seq::empty()]
    } else {
        let init = split_dots(s.drop_last());
        if s.last() == '.' {
            init.push(Seq::empty())
        } else {
            init.update(init.len() - 1, init.last().push(s.last()))
        }
    }
}

pub open spec fn is_digit(c: char) -> bool {
    '0' <= c && c <= '9'
}

pub open spec fn all_digits(s: Seq<char>) -> bool {
    forall|i: int| 0 <= i < s.len() ==> is_digit(#[trigger] s[i])
}

/// The number that a sequence of decimal digits denotes.
pub open spec fn digits_value(s: Seq<char>) -> nat
    decreases s.len(),
{
    if s.len() == 0 {
        0
    } else {
        digits_value(s.drop_last()) * 10 + ((s.last() as u32) - ('0' as u32)) as nat
    }
}

/// A token read as a `u32`: an optional `+`, then one or more decimal
/// digits whose value fits.
pub open spec fn parse_u32(s: Seq<char>) -> Option<u32> {
    let d = if s.len() > 0 && s[0] == '+' {
        s.drop_first()
    } else {
        s
    };
    if d.len() > 0 && all_digits(d) && digits_value(d) <= u32::MAX {
        Some(digits_value(d) as u32)
    } else {
        None
    }
}

pub open spec fn has_prefix(s: Seq<char>, p: Seq<char>) -> bool {
    p.len() <= s.len() && s.subrange(0, p.len() as int) == p
}

/// A numeric id after a prefix of length `n`.
pub open spec fn id_after(tok: Seq<char>, n: nat) -> Option<u32> {
    parse_u32(tok.subrange(n as int, tok.len() as int))
}

/// The part that a component token stands for; `after_sub` tells whether a
/// sub component came earlier in the name, which makes a patch a sub patch.
pub open spec fn classify(tok: Seq<char>, after_sub: bool) -> Result<Part, ChunkNameError> {
    if has_prefix(tok, base_prefix()) {
        match id_after(tok, 9) {
            Some(id) => Ok(Part::Base(id)),
            None => Err(ChunkNameError::InvalidNumericId),
        }
    } else if has_prefix(tok, dlc_prefix()) {
        Ok(Part::Dlc(tok.subrange(7, tok.len() as int)))
    } else if has_prefix(tok, patch_prefix()) {
        match id_after(tok, 6) {
            Some(id) => Ok(
                if after_sub {
                    Part::SubPatch(id)
                } else {
                    Part::Patch(id)
                },
            ),
            None => Err(ChunkNameError::InvalidNumericId),
        }
    } else if has_prefix(tok, sub_prefix()) {
        match id_after(tok, 4) {
            Some(id) => Ok(Part::Sub(id)),
            None => Err(ChunkNameError::InvalidNumericId),
        }
    } else {
        Err(ChunkNameError::InvalidComponent)
    }
}

pub open spec fn has_sub(parts: Seq<Part>) -> bool {
    exists|j: int| 0 <= j < parts.len() && #[trigger] parts[j] is Sub
}

/// The parts of the first `k` (token, extension) pairs, read left to right;
/// the first failing token gives the error.
pub open spec fn parse_pairs(toks: Seq<Seq<char>>, k: nat) -> Result<Seq<Part>, ChunkNameError>
    decreases k,
{
    if k == 0 {
        Ok(Seq::empty())
    } else {
        match parse_pairs(toks, (k - 1) as nat) {
            Err(e) => Err(e),
            Ok(parts) => match classify(toks[2 * (k - 1)], has_sub(parts)) {
                Err(e) => Err(e),
                Ok(p) => Ok(parts.push(p)),
            },
        }
    }
}

/// Every second token is the extension.
pub open spec fn extensions_ok(toks: Seq<Seq<char>>) -> bool {
    forall|k: int| 0 <= k < toks.len() / 2 ==> #[trigger] toks[2 * k + 1] == pak()
}

/// What a text parses to as a chunk name.
pub open spec fn parse_name(s: Seq<char>) -> Result<Seq<Part>, ChunkNameError> {
    let toks = split_dots(s);
    if toks.len() < 2 || toks.len() % 2 != 0 || !extensions_ok(toks) {
        Err(ChunkNameError::InvalidFormat)
    } else {
        parse_pairs(toks, toks.len() / 2)
    }
}

proof fn lemma_split_nonempty(s: Seq<char>)
    ensures
        split_dots(s).len() >= 1,
    decreases s.len(),
{
    if s.len() > 0 {
        lemma_split_nonempty(s.drop_last());
    }
}

proof fn lemma_digits_prefix(s: Seq<char>, j: int)
    requires
        0 <= j <= s.len(),
    ensures
        digits_value(s.subrange(0, j)) <= digits_value(s),
    decreases s.len(),
{
    if j < s.len() {
        assert(s.drop_last().subrange(0, j) =~= s.subrange(0, j));
        lemma_digits_prefix(s.drop_last(), j);
    } else {
        assert(s.subrange(0, j) =~= s);
    }
}

fn split_on_dots<'a>(s: &'a str) -> (r: Vec<&'a str>)
    ensures
        r@.map_values(|t: &str| t@) == split_dots(s@),
{
    let n = s.unicode_len();
    let mut toks: Vec<&'a str> = Vec::new();
    let mut start: usize = 0;
    let mut i: usize = 0;
    assert(s@.subrange(0, 0) =~= Seq::<char>::empty());
    assert(toks@.map_values(|t: &str| t@) + seq![s@.subrange(0, 0)] =~= split_dots(s@.subrange(0, 0)));
    while i < n
        invariant
            n == s@.len(),
            start <= i <= n,
            toks@.map_values(|t: &str| t@) + seq![s@.subrange(start as int, i as int)] == split_dots(
                s@.subrange(0, i as int),
            ),
        decreases n - i,
    {
        let c = s.get_char(i);
        let ghost pre = s@.subrange(0, i + 1);
        assert(pre.drop_last() =~= s@.subrange(0, i as int));
        assert(pre.last() == c);
        if c == '.' {
            let t = s.substring_char(start, i);
            let ghost old_view = toks@.map_values(|t: &str| t@);
            toks.push(t);
            assert(toks@.map_values(|t: &str| t@) =~= old_view.push(t@));
            start = i + 1;
            assert(s@.subrange(start as int, i + 1) =~= Seq::<char>::empty());
            assert(toks@.map_values(|t: &str| t@) + seq![s@.subrange(start as int, i + 1)] =~= split_dots(pre));
        } else {
            assert(s@.subrange(start as int, i as int).push(c) =~= s@.subrange(start as int, i + 1));
            assert(toks@.map_values(|t: &str| t@) + seq![s@.subrange(start as int, i + 1)] =~= split_dots(pre));
        }
        i += 1;
    }
    let t = s.substring_char(start, n);
    toks.push(t);
    assert(s@.subrange(0, n as int) =~= s@);
    assert(toks@.map_values(|t: &str| t@) =~= split_dots(s@));
    toks
}

fn parse_u32_token(s: &str, from: usize) -> (r: Option<u32>)
    requires
        from <= s@.len(),
    ensures
        r == parse_u32(s@.subrange(from as int, s@.len() as int)),
{
    let ghost t = s@.subrange(from as int, s@.len() as int);
    let n = s.unicode_len();
    let mut i = from;
    if i < n && s.get_char(i) == '+' {
        i = i + 1;
    }
    let ghost d = s@.subrange(i as int, n as int);
    assert(d =~= (if t.len() > 0 && t[0] == '+' { t.drop_first() } else { t }));
    if i == n {
        return None;
    }
    let start = i;
    let mut v: u64 = 0;
    assert(d.subrange(0, 0) =~= Seq::<char>::empty());
    while i < n
        invariant
            n == s@.len(),
            start < n,
            start <= i <= n,
            t == s@.subrange(from as int, n as int),
            d == (if t.len() > 0 && t[0] == '+' { t.drop_first() } else { t }),
            d == s@.subrange(start as int, n as int),
            all_digits(d.subrange(0, i - start)),
            v == digits_value(d.subrange(0, i - start)),
            v <= u32::MAX,
        decreases n - i,
    {
        let c = s.get_char(i);
        assert(d[i - start] == c);
        if !('0' <= c && c <= '9') {
            assert(!all_digits(d));
            return None;
        }
        let ghost pre = d.subrange(0, i - start + 1);
        assert(pre.drop_last() =~= d.subrange(0, i - start));
        assert(pre.last() == c);
        v = v * 10 + ((c as u32) - ('0' as u32)) as u64;
        assert(v == digits_value(pre));
        if v > u32::MAX as u64 {
            proof {
                if all_digits(d) {
                    lemma_digits_prefix(d, (i - start + 1) as int);
                }
            }
            return None;
        }
        i += 1;
    }
    assert(d.subrange(0, n - start) =~= d);
    Some(v as u32)
}

pub(crate) fn starts_with(s: &str, p: &str) -> (r: bool)
    ensures
        r == has_prefix(s@, p@),
{
    let n = s.unicode_len();
    let m = p.unicode_len();
    if m > n {
        return false;
    }
    let mut i: usize = 0;
    while i < m
        invariant
            n == s@.len(),
            m == p@.len(),
            m <= n,
            i <= m,
            s@.subrange(0, i as int) == p@.subrange(0, i as int),
        decreases m - i,
    {
        if s.get_char(i) != p.get_char(i) {
            assert(s@.subrange(0, m as int)[i as int] != p@[i as int]);
            return false;
        }
        assert(s@.subrange(0, i + 1) =~= s@.subrange(0, i as int).push(s@[i as int]));
        assert(p@.subrange(0, i + 1) =~= p@.subrange(0, i as int).push(p@[i as int]));
        i += 1;
    }
    assert(p@.subrange(0, m as int) =~= p@);
    true
}

fn classify_token(tok: &str, after_sub: bool) -> (r: Result<ChunkComponent, ChunkNameError>)
    ensures
        match r {
            Ok(c) => classify(tok@, after_sub) == Ok::<Part, ChunkNameError>(c@),
            Err(e) => classify(tok@, after_sub) == Err::<Part, ChunkNameError>(e),
        },
{
    proof {
        reveal_strlit("re_chunk_");
        reveal_strlit("re_dlc_");
        reveal_strlit("patch_");
        reveal_strlit("sub_");
    }
    assert("re_chunk_"@ =~= base_prefix());
    assert("re_dlc_"@ =~= dlc_prefix());
    assert("patch_"@ =~= patch_prefix());
    assert("sub_"@ =~= sub_prefix());
    if starts_with(tok, "re_chunk_") {
        match parse_u32_token(tok, 9) {
            Some(id) => Ok(ChunkComponent::Base(id)),
            None => Err(ChunkNameError::InvalidNumericId),
        }
    } else if starts_with(tok, "re_dlc_") {
        let n = tok.unicode_len();
        let rest = tok.substring_char(7, n);
        Ok(ChunkComponent::Dlc(String::from_str(rest)))
    } else if starts_with(tok, "patch_") {
        match parse_u32_token(tok, 6) {
            Some(id) => if after_sub {
                Ok(ChunkComponent::SubPatch(id))
            } else {
                Ok(ChunkComponent::Patch(id))
            },
            None => Err(ChunkNameError::InvalidNumericId),
        }
    } else if starts_with(tok, "sub_") {
        match parse_u32_token(tok, 4) {
            Some(id) => Ok(ChunkComponent::Sub(id)),
            None => Err(ChunkNameError::InvalidNumericId),
        }
    } else {
        Err(ChunkNameError::InvalidComponent)
    }
}

proof fn lemma_pairs_err_stays(toks: Seq<Seq<char>>, k: nat, m: nat)
    requires
        k <= m,
        parse_pairs(toks, k) is Err,
    ensures
        parse_pairs(toks, m) == parse_pairs(toks, k),
    decreases m - k,
{
    if k < m {
        lemma_pairs_err_stays(toks, k, (m - 1) as nat);
    }
}

proof fn lemma_has_sub_push(parts: Seq<Part>, p: Part)
    ensures
        has_sub(parts.push(p)) == (has_sub(parts) || p is Sub),
{
    if has_sub(parts) {
        let j = choose|j: int| 0 <= j < parts.len() && #[trigger] parts[j] is Sub;
        assert(parts.push(p)[j] is Sub);
    }
    if p is Sub {
        assert(parts.push(p)[parts.len() as int] is Sub);
    }
    if has_sub(parts.push(p)) {
        let j = choose|j: int| 0 <= j < parts.len() + 1 && #[trigger] parts.push(p)[j] is Sub;
        if j < parts.len() {
            assert(parts[j] is Sub);
        }
    }
}

impl ChunkName {
    /// Parses a file name into its components.
    ///
    /// The text must split on `.` into a non-zero even number of tokens,
    /// every second one `pak`; each other token is classified by its prefix,
    /// and a patch after a sub component is a sub patch.
    pub fn try_from_str(name: &str) -> (r: Result<ChunkName, ChunkNameError>)
        ensures
            match r {
                Ok(c) => parse_name(name@) == Ok::<Seq<Part>, ChunkNameError>(c@),
                Err(e) => parse_name(name@) == Err::<Seq<Part>, ChunkNameError>(e),
            },
    {
        let toks = split_on_dots(name);
        let ghost tv = toks@.map_values(|t: &str| t@);
        let n = toks.len();
        if n < 2 || n % 2 != 0 {
            return Err(ChunkNameError::InvalidFormat);
        }
        proof {
            reveal_strlit("pak");
        }
        assert("pak"@ =~= pak());
        let mut k: usize = 0;
        while k < n / 2
            invariant
                n == tv.len(),
                tv == toks@.map_values(|t: &str| t@),
                "pak"@ == pak(),
                tv == split_dots(name@),
                n >= 2,
                n % 2 == 0,
                k <= n / 2,
                forall|j: int| 0 <= j < k ==> #[trigger] tv[2 * j + 1] == pak(),
            decreases n / 2 - k,
        {
            let tok = toks[2 * k + 1];
            assert(tok@ == tv[2 * k + 1]);
            if !(starts_with(tok, "pak") && tok.unicode_len() == 3) {
                assert(tv[2 * k + 1] != pak()) by {
                    if tv[2 * k + 1] == pak() {
                        assert(tok@.subrange(0, 3) =~= tok@);
                    }
                }
                assert(!extensions_ok(tv));
                return Err(ChunkNameError::InvalidFormat);
            }
            assert(tok@.subrange(0, 3) =~= tok@);
            k += 1;
        }
        assert(extensions_ok(tv));
        let mut components: Vec<ChunkComponent> = Vec::new();
        let mut after_sub = false;
        k = 0;
        assert(components@.map_values(|c: ChunkComponent| c@) =~= Seq::<Part>::empty());
        while k < n / 2
            invariant
                n == tv.len(),
                tv == toks@.map_values(|t: &str| t@),
                tv == split_dots(name@),
                n >= 2,
                n % 2 == 0,
                extensions_ok(tv),
                k <= n / 2,
                parse_pairs(tv, k as nat) == Ok::<Seq<Part>, ChunkNameError>(
                    components@.map_values(|c: ChunkComponent| c@),
                ),
                after_sub == has_sub(components@.map_values(|c: ChunkComponent| c@)),
            decreases n / 2 - k,
        {
            let ghost before = components@.map_values(|c: ChunkComponent| c@);
            let tok = toks[2 * k];
            assert(tok@ == tv[2 * k]);
            match classify_token(tok, after_sub) {
                Err(e) => {
                    assert(parse_pairs(tv, (k + 1) as nat) == Err::<Seq<Part>, ChunkNameError>(e));
                    proof {
                        lemma_pairs_err_stays(tv, (k + 1) as nat, (n / 2) as nat);
                    }
                    return Err(e);
                },
                Ok(c) => {
                    let ghost p = c@;
                    if let ChunkComponent::Sub(_) = &c {
                        after_sub = true;
                    }
                    components.push(c);
                    assert(components@.map_values(|c: ChunkComponent| c@) =~= before.push(p));
                    proof {
                        lemma_has_sub_push(before, p);
                    }
                },
            }
            k += 1;
        }
        Ok(ChunkName { components })
    }
}

/// A sequence of parts that is the model of some file name: not empty, no
/// DLC id holding a dot, a patch only where no sub came before, and a sub
/// patch only after a sub.
pub open spec fn valid_parts(parts: Seq<Part>) -> bool {
    &&& parts.len() >= 1
    &&& forall|i: int| 0 <= i < parts.len() && (#[trigger] parts[i]) is Dlc ==> !parts[i]->Dlc_0.contains('.')
    &&& forall|i: int| 0 <= i < parts.len() && (#[trigger] parts[i]) is Patch ==> !has_sub(parts.subrange(0, i))
    &&& forall|i: int| 0 <= i < parts.len() && (#[trigger] parts[i]) is SubPatch ==> has_sub(parts.subrange(0, i))
}

/// The tokens of a rendered name: each part's token followed by the extension.
pub open spec fn name_tokens(parts: Seq<Part>) -> Seq<Seq<char>>
    decreases parts.len(),
{
    if parts.len() == 0 {
        Seq::empty()
    } else {
        name_tokens(parts.drop_last()) + seq![part_token(parts.last()), pak()]
    }
}

proof fn lemma_split_concat(a: Seq<char>, b: Seq<char>)
    ensures
        split_dots(a + seq!['.'] + b) == split_dots(a) + split_dots(b),
    decreases b.len(),
{
    lemma_split_nonempty(a);
    if b.len() == 0 {
        assert(a + seq!['.'] + b =~= a.push('.'));
        assert((a.push('.')).drop_last() =~= a);
        assert(split_dots(a) + split_dots(b) =~= split_dots(a).push(Seq::empty()));
    } else {
        let b0 = b.drop_last();
        let c = b.last();
        lemma_split_concat(a, b0);
        lemma_split_nonempty(b0);
        let whole = a + seq!['.'] + b;
        assert(whole.drop_last() =~= a + seq!['.'] + b0);
        assert(whole.last() == c);
        assert(b.drop_last() =~= b0);
        if c == '.' {
            assert(split_dots(whole) =~= split_dots(a) + split_dots(b));
        } else {
            assert(split_dots(whole) =~= split_dots(a) + split_dots(b));
        }
    }
}

proof fn lemma_split_no_dots(t: Seq<char>)
    requires
        !t.contains('.'),
    ensures
        split_dots(t) == seq![t],
    decreases t.len(),
{
    if t.len() > 0 {
        let t0 = t.drop_last();
        assert(!t0.contains('.')) by {
            if t0.contains('.') {
                let j = choose|j: int| 0 <= j < t0.len() && t0[j] == '.';
                assert(t[j] == '.');
            }
        }
        lemma_split_no_dots(t0);
        assert(t[t.len() - 1] != '.');
        assert(t0.push(t.last()) =~= t);
        assert(split_dots(t) =~= seq![t]);
    } else {
        assert(t =~= Seq::<char>::empty());
    }
}

proof fn lemma_digit(d: nat)
    requires
        d < 10,
    ensures
        is_digit(digits()[d as int]),
        ((digits()[d as int] as u32) - ('0' as u32)) as nat == d,
{
}

proof fn lemma_decimal(n: nat)
    ensures
        decimal(n).len() >= 1,
        all_digits(decimal(n)),
        digits_value(decimal(n)) == n,
    decreases n,
{
    if n < 10 {
        lemma_digit(n);
        let d = decimal(n);
        assert(d.drop_last() =~= Seq::<char>::empty());
        assert(digits_value(d.drop_last()) == 0);
        assert(d.last() == digits()[n as int]);
    } else {
        lemma_decimal(n / 10);
        lemma_digit(n % 10);
        let d = decimal(n);
        assert(d.drop_last() =~= decimal(n / 10));
        assert(d.last() == digits()[(n % 10) as int]);
        assert((n / 10) * 10 + n % 10 == n);
        assert(all_digits(d)) by {
            assert forall|i: int| 0 <= i < d.len() implies is_digit(#[trigger] d[i]) by {
                if i < d.len() - 1 {
                    assert(d[i] == decimal(n / 10)[i]);
                }
            }
        }
    }
}

proof fn lemma_leading_zero(x: Seq<char>)
    ensures
        digits_value(seq!['0'] + x) == digits_value(x),
    decreases x.len(),
{
    let y = seq!['0'] + x;
    if x.len() == 0 {
        assert(y.drop_last() =~= Seq::<char>::empty());
        assert(digits_value(y.drop_last()) == 0);
        assert(y.last() == '0');
    } else {
        lemma_leading_zero(x.drop_last());
        assert(y.drop_last() =~= seq!['0'] + x.drop_last());
        assert(y.last() == x.last());
    }
}

proof fn lemma_padded(n: nat)
    ensures
        padded(n).len() >= 1,
        all_digits(padded(n)),
        parse_u32(padded(n)) == (if n <= u32::MAX { Some(n as u32) } else { None::<u32> }),
        !padded(n).contains('.'),
{
    lemma_decimal(n);
    let d = decimal(n);
    let p = padded(n);
    if n < 10 {
        lemma_leading_zero(d);
        lemma_leading_zero(seq!['0'] + d);
        assert(p =~= seq!['0'] + (seq!['0'] + d));
    } else if n < 100 {
        lemma_leading_zero(d);
    }
    assert(all_digits(p)) by {
        assert forall|i: int| 0 <= i < p.len() implies is_digit(#[trigger] p[i]) by {
            if n < 10 {
                if i >= 2 {
                    assert(p[i] == d[i - 2]);
                }
            } else if n < 100 {
                if i >= 1 {
                    assert(p[i] == d[i - 1]);
                }
            }
        }
    }
    assert(!p.contains('.')) by {
        if p.contains('.') {
            let j = choose|j: int| 0 <= j < p.len() && p[j] == '.';
            assert(is_digit(p[j]));
        }
    }
    assert(p[0] != '+') by {
        assert(is_digit(p[0]));
    }
}

proof fn lemma_prefix_of_concat(p: Seq<char>, x: Seq<char>)
    ensures
        has_prefix(p + x, p),
        (p + x).subrange(p.len() as int, (p + x).len() as int) == x,
{
    assert((p + x).subrange(0, p.len() as int) =~= p);
    assert((p + x).subrange(p.len() as int, (p + x).len() as int) =~= x);
}

proof fn lemma_token_no_dots(p: Part)
    requires
        p is Dlc ==> !p->Dlc_0.contains('.'),
    ensures
        !part_token(p).contains('.'),
{
    let t = part_token(p);
    let (pre, rest) = match p {
        Part::Base(id) => (base_prefix(), padded(id as nat)),
        Part::Dlc(s) => (dlc_prefix(), s),
        Part::Patch(id) => (patch_prefix(), padded(id as nat)),
        Part::Sub(id) => (sub_prefix(), padded(id as nat)),
        Part::SubPatch(id) => (patch_prefix(), padded(id as nat)),
    };
    match p {
        Part::Dlc(_) => {},
        Part::Base(id) => lemma_padded(id as nat),
        Part::Patch(id) => lemma_padded(id as nat),
        Part::Sub(id) => lemma_padded(id as nat),
        Part::SubPatch(id) => lemma_padded(id as nat),
    }
    assert(t == pre + rest);
    if t.contains('.') {
        let j = choose|j: int| 0 <= j < t.len() && t[j] == '.';
        if j < pre.len() {
            assert(pre[j] == '.');
        } else {
            assert(rest[j - pre.len()] == '.');
        }
    }
}

proof fn lemma_classify_token(p: Part, after_sub: bool)
    requires
        p is Dlc ==> !p->Dlc_0.contains('.'),
        p is Patch ==> !after_sub,
        p is SubPatch ==> after_sub,
    ensures
        classify(part_token(p), after_sub) == Ok::<Part, ChunkNameError>(p),
{
    let t = part_token(p);
    match p {
        Part::Base(id) => {
            lemma_padded(id as nat);
            lemma_prefix_of_concat(base_prefix(), padded(id as nat));
        },
        Part::Dlc(s) => {
            lemma_prefix_of_concat(dlc_prefix(), s);
            assert(t[3] == 'd');
            assert(!has_prefix(t, base_prefix())) by {
                if has_prefix(t, base_prefix()) {
                    assert(t.subrange(0, 9)[3] == 'c');
                }
            }
        },
        Part::Patch(id) => {
            lemma_padded(id as nat);
            lemma_prefix_of_concat(patch_prefix(), padded(id as nat));
            assert(!has_prefix(t, base_prefix())) by {
                if has_prefix(t, base_prefix()) {
                    assert(t.subrange(0, 9)[0] == 'r');
                }
            }
            assert(!has_prefix(t, dlc_prefix())) by {
                if has_prefix(t, dlc_prefix()) {
                    assert(t.subrange(0, 7)[0] == 'r');
                }
            }
        },
        Part::SubPatch(id) => {
            lemma_padded(id as nat);
            lemma_prefix_of_concat(patch_prefix(), padded(id as nat));
            assert(!has_prefix(t, base_prefix())) by {
                if has_prefix(t, base_prefix()) {
                    assert(t.subrange(0, 9)[0] == 'r');
                }
            }
            assert(!has_prefix(t, dlc_prefix())) by {
                if has_prefix(t, dlc_prefix()) {
                    assert(t.subrange(0, 7)[0] == 'r');
                }
            }
        },
        Part::Sub(id) => {
            lemma_padded(id as nat);
            lemma_prefix_of_concat(sub_prefix(), padded(id as nat));
            assert(!has_prefix(t, base_prefix())) by {
                if has_prefix(t, base_prefix()) {
                    assert(t.subrange(0, 9)[0] == 'r');
                }
            }
            assert(!has_prefix(t, dlc_prefix())) by {
                if has_prefix(t, dlc_prefix()) {
                    assert(t.subrange(0, 7)[0] == 'r');
                }
            }
            assert(!has_prefix(t, patch_prefix())) by {
                if has_prefix(t, patch_prefix()) {
                    assert(t.subrange(0, 6)[0] == 'p');
                }
            }
        },
    }
}

proof fn lemma_split_render(parts: Seq<Part>)
    requires
        forall|i: int| 0 <= i < parts.len() && (#[trigger] parts[i]) is Dlc ==> !parts[i]->Dlc_0.contains('.'),
    ensures
        parts.len() >= 1 ==> split_dots(render(parts)) == name_tokens(parts),
    decreases parts.len(),
{
    if parts.len() >= 1 {
        let last = parts.last();
        assert(last == parts[parts.len() - 1]);
        lemma_token_no_dots(last);
        lemma_split_no_dots(part_token(last));
        assert(!pak().contains('.')) by {
            if pak().contains('.') {
                let j = choose|j: int| 0 <= j < 3 && pak()[j] == '.';
            }
        }
        lemma_split_no_dots(pak());
        lemma_split_concat(part_token(last), pak());
        if parts.len() == 1 {
            assert(parts.drop_last() =~= Seq::<Part>::empty());
            assert(name_tokens(parts.drop_last()) =~= Seq::<Seq<char>>::empty());
            assert(name_tokens(parts) =~= seq![part_token(last), pak()]);
        } else {
            let init = parts.drop_last();
            assert forall|i: int| 0 <= i < init.len() && (#[trigger] init[i]) is Dlc implies !init[i]->Dlc_0.contains('.') by {
                assert(init[i] == parts[i]);
            }
            lemma_split_render(init);
            lemma_split_concat(render(init), part_text(last));
            assert(split_dots(render(parts)) =~= name_tokens(parts));
        }
    }
}

proof fn lemma_name_tokens_index(parts: Seq<Part>)
    ensures
        name_tokens(parts).len() == 2 * parts.len(),
        forall|k: int| 0 <= k < parts.len() ==> #[trigger] name_tokens(parts)[2 * k] == part_token(parts[k]),
        forall|k: int| 0 <= k < parts.len() ==> #[trigger] name_tokens(parts)[2 * k + 1] == pak(),
    decreases parts.len(),
{
    if parts.len() > 0 {
        let init = parts.drop_last();
        lemma_name_tokens_index(init);
        assert forall|k: int| 0 <= k < parts.len() implies #[trigger] name_tokens(parts)[2 * k] == part_token(parts[k]) by {
            if k < init.len() {
                assert(name_tokens(parts)[2 * k] == name_tokens(init)[2 * k]);
                assert(init[k] == parts[k]);
            }
        }
        assert forall|k: int| 0 <= k < parts.len() implies #[trigger] name_tokens(parts)[2 * k + 1] == pak() by {
            if k < init.len() {
                assert(name_tokens(parts)[2 * k + 1] == name_tokens(init)[2 * k + 1]);
            }
        }
    }
}

proof fn lemma_parse_pairs_render(parts: Seq<Part>, k: nat)
    requires
        valid_parts(parts),
        k <= parts.len(),
    ensures
        parse_pairs(name_tokens(parts), k) == Ok::<Seq<Part>, ChunkNameError>(parts.subrange(0, k as int)),
    decreases k,
{
    lemma_name_tokens_index(parts);
    if k == 0 {
        assert(parts.subrange(0, 0) =~= Seq::<Part>::empty());
    } else {
        let j = (k - 1) as int;
        lemma_parse_pairs_render(parts, (k - 1) as nat);
        let p = parts[j];
        assert(name_tokens(parts)[2 * j] == part_token(p));
        lemma_classify_token(p, has_sub(parts.subrange(0, j)));
        assert(parts.subrange(0, j).push(p) =~= parts.subrange(0, k as int));
    }
}

/// Formatting a valid name and parsing the text gives the name back.
pub proof fn lemma_parse_render(parts: Seq<Part>)
    requires
        valid_parts(parts),
    ensures
        parse_name(render(parts)) == Ok::<Seq<Part>, ChunkNameError>(parts),
{
    lemma_split_render(parts);
    lemma_name_tokens_index(parts);
    let toks = name_tokens(parts);
    assert(toks.len() / 2 == parts.len());
    assert(extensions_ok(toks));
    lemma_parse_pairs_render(parts, parts.len());
    assert(parts.subrange(0, parts.len() as int) =~= parts);
}

/// Whether the parts meet `valid_parts` except for being non-empty.
pub open spec fn well_placed(parts: Seq<Part>) -> bool {
    &&& forall|i: int| 0 <= i < parts.len() && (#[trigger] parts[i]) is Dlc ==> !parts[i]->Dlc_0.contains('.')
    &&& forall|i: int| 0 <= i < parts.len() && (#[trigger] parts[i]) is Patch ==> !has_sub(parts.subrange(0, i))
    &&& forall|i: int| 0 <= i < parts.len() && (#[trigger] parts[i]) is SubPatch ==> has_sub(parts.subrange(0, i))
}

proof fn lemma_split_tokens_no_dots(s: Seq<char>)
    ensures
        forall|i: int| 0 <= i < split_dots(s).len() ==> !(#[trigger] split_dots(s)[i]).contains('.'),
    decreases s.len(),
{
    lemma_split_nonempty(s);
    if s.len() == 0 {
        assert(split_dots(s)[0] =~= Seq::<char>::empty());
    } else {
        let init = split_dots(s.drop_last());
        lemma_split_tokens_no_dots(s.drop_last());
        lemma_split_nonempty(s.drop_last());
        let c = s.last();
        if c != '.' {
            let t = init.last().push(c);
            assert(!t.contains('.')) by {
                if t.contains('.') {
                    let j = choose|j: int| 0 <= j < t.len() && t[j] == '.';
                    if j < t.len() - 1 {
                        assert(init.last()[j] == '.');
                        assert(init[init.len() - 1].contains('.'));
                    }
                }
            }
        }
        assert forall|i: int| 0 <= i < split_dots(s).len() implies !(#[trigger] split_dots(s)[i]).contains('.') by {
            if i < init.len() - 1 {
                assert(split_dots(s)[i] == init[i]);
            } else if i == init.len() - 1 {
                if c == '.' {
                    assert(split_dots(s)[i] == init[i]);
                }
            } else {
                assert(split_dots(s)[i] =~= Seq::<char>::empty());
            }
        }
    }
}

proof fn lemma_classify_shape(tok: Seq<char>, after_sub: bool)
    requires
        !tok.contains('.'),
        classify(tok, after_sub) is Ok,
    ensures
        ({
            let p = classify(tok, after_sub)->Ok_0;
            &&& p is Dlc ==> !p->Dlc_0.contains('.')
            &&& p is Patch ==> !after_sub
            &&& p is SubPatch ==> after_sub
        }),
{
    let p = classify(tok, after_sub)->Ok_0;
    if p is Dlc {
        let rest = tok.subrange(7, tok.len() as int);
        assert(p->Dlc_0 == rest);
        if rest.contains('.') {
            let j = choose|j: int| 0 <= j < rest.len() && rest[j] == '.';
            assert(tok[j + 7] == '.');
        }
    }
}

proof fn lemma_parse_pairs_placed(toks: Seq<Seq<char>>, k: nat)
    requires
        2 * k <= toks.len(),
        forall|i: int| 0 <= i < toks.len() ==> !(#[trigger] toks[i]).contains('.'),
        parse_pairs(toks, k) is Ok,
    ensures
        parse_pairs(toks, k)->Ok_0.len() == k,
        well_placed(parse_pairs(toks, k)->Ok_0),
    decreases k,
{
    if k > 0 {
        lemma_parse_pairs_placed(toks, (k - 1) as nat);
        let init = parse_pairs(toks, (k - 1) as nat)->Ok_0;
        let tok = toks[2 * (k - 1)];
        lemma_classify_shape(tok, has_sub(init));
        let p = classify(tok, has_sub(init))->Ok_0;
        let parts = init.push(p);
        assert(parse_pairs(toks, k)->Ok_0 == parts);
        assert(parts.subrange(0, init.len() as int) =~= init);
        assert forall|i: int| 0 <= i < init.len() implies parts.subrange(0, i) == init.subrange(0, i) && parts[i] == init[i] by {
            assert(parts.subrange(0, i) =~= init.subrange(0, i));
        }
    } else {
        assert(parse_pairs(toks, k)->Ok_0 =~= Seq::<Part>::empty());
    }
}

/// Every name that parsing produces is valid.
pub proof fn lemma_parsed_is_valid(s: Seq<char>)
    requires
        parse_name(s) is Ok,
    ensures
        valid_parts(parse_name(s)->Ok_0),
{
    let toks = split_dots(s);
    lemma_split_tokens_no_dots(s);
    lemma_parse_pairs_placed(toks, toks.len() / 2);
}

/// Formatting the name that a text parses to gives a text that parses to
/// the same name; so formatting and parsing are inverse on formatted texts.
pub proof fn lemma_format_parse(s: Seq<char>)
    requires
        parse_name(s) is Ok,
    ensures
        parse_name(render(parse_name(s)->Ok_0)) == parse_name(s),
        render(parse_name(render(parse_name(s)->Ok_0))->Ok_0) == render(parse_name(s)->Ok_0),
{
    lemma_parsed_is_valid(s);
    lemma_parse_render(parse_name(s)->Ok_0);
}

/// The text of dot-separated tokens joined back together.
pub open spec fn join_dots(toks: Seq<Seq<char>>) -> Seq<char>
    decreases toks.len(),
{
    if toks.len() == 0 {
        Seq::empty()
    } else if toks.len() == 1 {
        toks[0]
    } else {
        join_dots(toks.drop_last()) + seq!['.'] + toks.last()
    }
}

/// A numeric id after a prefix of length `n`, written as formatting writes
/// it: zero-padded to three digits, no sign, no further leading zeros.
pub open spec fn canonical_id(tok: Seq<char>, n: nat) -> bool {
    &&& id_after(tok, n) is Some
    &&& tok.subrange(n as int, tok.len() as int) == padded(id_after(tok, n)->0 as nat)
}

/// A component token written as formatting writes it.
pub open spec fn canonical_token(tok: Seq<char>) -> bool {
    if has_prefix(tok, base_prefix()) {
        canonical_id(tok, 9)
    } else if has_prefix(tok, dlc_prefix()) {
        true
    } else if has_prefix(tok, patch_prefix()) {
        canonical_id(tok, 6)
    } else if has_prefix(tok, sub_prefix()) {
        canonical_id(tok, 4)
    } else {
        true
    }
}

/// A text whose every component token is canonical.
pub open spec fn canonical_text(s: Seq<char>) -> bool {
    let toks = split_dots(s);
    forall|k: int| 0 <= k < toks.len() / 2 ==> canonical_token(#[trigger] toks[2 * k])
}

proof fn lemma_join_split(s: Seq<char>)
    ensures
        join_dots(split_dots(s)) == s,
    decreases s.len(),
{
    if s.len() == 0 {
        assert(split_dots(s) =~= seq![Seq::<char>::empty()]);
        assert(s =~= Seq::<char>::empty());
    } else {
        let s0 = s.drop_last();
        let c = s.last();
        let x = split_dots(s0);
        lemma_join_split(s0);
        lemma_split_nonempty(s0);
        assert(s0.push(c) =~= s);
        if c == '.' {
            let y = x.push(Seq::<char>::empty());
            assert(y.drop_last() =~= x);
            assert(join_dots(y) =~= s);
        } else {
            let y = x.update(x.len() - 1, x.last().push(c));
            if x.len() == 1 {
                assert(join_dots(y) =~= s);
            } else {
                assert(y.drop_last() =~= x.drop_last());
                assert(join_dots(y) =~= s);
            }
        }
    }
}

proof fn lemma_pairs_index(toks: Seq<Seq<char>>, m: nat)
    requires
        parse_pairs(toks, m) is Ok,
    ensures
        parse_pairs(toks, m)->Ok_0.len() == m,
        forall|k: int|
            0 <= k < m ==> classify(toks[2 * k], has_sub(parse_pairs(toks, m)->Ok_0.subrange(0, k)))
                == Ok::<Part, ChunkNameError>(#[trigger] parse_pairs(toks, m)->Ok_0[k]),
    decreases m,
{
    if m > 0 {
        lemma_pairs_index(toks, (m - 1) as nat);
        let init = parse_pairs(toks, (m - 1) as nat)->Ok_0;
        let parts = parse_pairs(toks, m)->Ok_0;
        assert(parts == init.push(parts[m - 1]));
        assert(parts.subrange(0, m - 1) =~= init);
        assert forall|k: int| 0 <= k < m implies classify(toks[2 * k], has_sub(parts.subrange(0, k)))
            == Ok::<Part, ChunkNameError>(#[trigger] parts[k]) by {
            if k < m - 1 {
                assert(parts.subrange(0, k) =~= init.subrange(0, k));
                assert(parts[k] == init[k]);
            }
        }
    }
}

proof fn lemma_canonical_token(tok: Seq<char>, after_sub: bool)
    requires
        canonical_token(tok),
        classify(tok, after_sub) is Ok,
    ensures
        part_token(classify(tok, after_sub)->Ok_0) == tok,
{
    let n: int = if has_prefix(tok, base_prefix()) {
        9
    } else if has_prefix(tok, dlc_prefix()) {
        7
    } else if has_prefix(tok, patch_prefix()) {
        6
    } else {
        4
    };
    assert(tok =~= tok.subrange(0, n) + tok.subrange(n, tok.len() as int));
}

/// A parsable text whose numeric ids are written as formatting writes them
/// is exactly the text of the name it parses to.
pub proof fn lemma_render_parse(s: Seq<char>)
    requires
        parse_name(s) is Ok,
        canonical_text(s),
    ensures
        render(parse_name(s)->Ok_0) == s,
{
    let toks = split_dots(s);
    let m = toks.len() / 2;
    let parts = parse_name(s)->Ok_0;
    lemma_parsed_is_valid(s);
    lemma_pairs_index(toks, m as nat);
    lemma_name_tokens_index(parts);
    lemma_split_render(parts);
    assert(name_tokens(parts) =~= toks) by {
        assert forall|i: int| 0 <= i < toks.len() implies name_tokens(parts)[i] == toks[i] by {
            let k = i / 2;
            if i % 2 == 0 {
                assert(i == 2 * k);
                assert(canonical_token(toks[2 * k]));
                assert(0 <= k < m);
                assert(parts == parse_pairs(toks, m as nat)->Ok_0);
                assert(classify(toks[2 * k], has_sub(parts.subrange(0, k))) == Ok::<Part, ChunkNameError>(
                    parts[k],
                ));
                lemma_canonical_token(toks[2 * k], has_sub(parts.subrange(0, k)));
                assert(name_tokens(parts)[2 * k] == part_token(parts[k]));
            } else {
                assert(i == 2 * k + 1);
                assert(toks[2 * k + 1] == pak());
                assert(name_tokens(parts)[2 * k + 1] == pak());
            }
        }
    }
    lemma_join_split(s);
    lemma_join_split(render(parts));
}

} // verus!
