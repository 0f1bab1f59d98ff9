//! Text preprocessors that run before the rank transform: escaping capital
//! letters, and replacing XML closing tags by a single byte.
use vstd::prelude::*;

verus! {

/// Whether `b` is an ASCII capital letter.
pub open spec fn is_capital(b: u8) -> bool {
    65 <= b <= 90
}

/// What one input byte becomes: a capital turns into the escape byte and the
/// lower-case letter, any other byte stays.
pub open spec fn capsified_byte(b: u8, cap_symbol: u8) -> Seq<u8> {
    if is_capital(b) {
        seq![cap_symbol, (b + 32) as u8]
    } else {
        seq![b]
    }
}

/// The escaped form of `s`.
pub open spec fn capsified(s: Seq<u8>, cap_symbol: u8) -> Seq<u8>
    decreases s.len(),
{
    if s.len() == 0 {
        Seq::empty()
    } else {
        capsified_byte(s[0], cap_symbol) + capsified(s.drop_first(), cap_symbol)
    }
}

/// Prepends `xs` to a result that may have failed.
pub open spec fn prefixed(xs: Seq<u8>, o: Option<Seq<u8>>) -> Option<Seq<u8>> {
    match o {
        Some(rest) => Some(xs + rest),
        None => None,
    }
}

/// The unescaped form of `s`: the escape byte and the byte after it become
/// that byte minus 32. `None` if an escape byte ends the input or is followed
/// by a byte below 32.
pub open spec fn uncapsified(s: Seq<u8>, cap_symbol: u8) -> Option<Seq<u8>>
    decreases s.len(),
{
    if s.len() == 0 {
        Some(Seq::empty())
    } else if s[0] == cap_symbol {
        if s.len() >= 2 && s[1] >= 32 {
            prefixed(seq![(s[1] - 32) as u8], uncapsified(s.subrange(2, s.len() as int), cap_symbol))
        } else {
            None
        }
    } else {
        prefixed(seq![s[0]], uncapsified(s.drop_first(), cap_symbol))
    }
}

/// Unescaping the escaped form of a text that does not hold the escape byte
/// gives the text back.
pub proof fn lemma_capsify_round_trip(s: Seq<u8>, cap_symbol: u8)
    requires
        !s.contains(cap_symbol),
    ensures
        uncapsified(capsified(s, cap_symbol), cap_symbol) == Some(s),
    decreases s.len(),
{
    if s.len() > 0 {
        let rest = s.drop_first();
        assert(!rest.contains(cap_symbol)) by {
            if rest.contains(cap_symbol) {
                let j = choose|j: int| 0 <= j < rest.len() && rest[j] == cap_symbol;
                assert(s[j + 1] == cap_symbol);
            }
        }
        lemma_capsify_round_trip(rest, cap_symbol);
        let c = capsified(s, cap_symbol);
        let tail = capsified(rest, cap_symbol);
        if is_capital(s[0]) {
            assert(c.subrange(2, c.len() as int) =~= tail);
        } else {
            assert(s[0] != cap_symbol);
            assert(c.drop_first() =~= tail);
        }
        assert(seq![s[0]] + rest =~= s);
    } else {
        assert(s =~= Seq::<u8>::empty());
    }
}

/// Escapes capital letters: each becomes the escape byte followed by its
/// lower-case letter.
pub struct Capsif {
    pub cap_symbol: u8,
}

impl Capsif {
    pub fn new(cap_symbol: u8) -> (r: Self)
        ensures
            r.cap_symbol == cap_symbol,
    {
        Capsif { cap_symbol }
    }

    /// The escaped form of `input`.
    pub fn apply(&self, input: &[u8]) -> (r: Vec<u8>)
        ensures
            r@ == capsified(input@, self.cap_symbol),
    {
        let ghost s = input@;
        let c = self.cap_symbol;
        let mut out: Vec<u8> = Vec::new();
        let mut i: usize = 0;
        proof {
            assert(s.subrange(0, s.len() as int) =~= s);
            assert(out@ + capsified(s, c) =~= capsified(s, c));
        }
        while i < input.len()
            invariant
                s == input@,
                i <= s.len(),
                capsified(s, c) == out@ + capsified(s.subrange(i as int, s.len() as int), c),
            decreases s.len() - i,
        {
            let ghost sub = s.subrange(i as int, s.len() as int);
            let ghost before = out@;
            let ch = input[i];
            if 65 <= ch && ch <= 90 {
                out.push(c);
                out.push(ch + 32);
            } else {
                out.push(ch);
            }
            proof {
                assert(sub.drop_first() =~= s.subrange(i + 1, s.len() as int));
                assert(out@ =~= before + capsified_byte(ch, c));
                assert(capsified(sub, c) == capsified_byte(ch, c) + capsified(sub.drop_first(), c));
                assert(before + (capsified_byte(ch, c) + capsified(sub.drop_first(), c)) =~= out@
                    + capsified(sub.drop_first(), c));
            }
            i += 1;
        }
        proof {
            assert(s.subrange(s.len() as int, s.len() as int) =~= Seq::<u8>::empty());
            assert(out@ + Seq::<u8>::empty() =~= out@);
        }
        out
    }
}

/// Byte strings that can be escaped.
pub trait CapsifyIterator {
    /// The bytes.
    spec fn byte_seq(&self) -> Seq<u8>;

    /// The escaped form of the bytes.
    fn capsify(&self, cap_symbol: u8) -> (r: Vec<u8>)
        ensures
            r@ == capsified(self.byte_seq(), cap_symbol),
    ;
}

impl CapsifyIterator for Vec<u8> {
    open spec fn byte_seq(&self) -> Seq<u8> {
        self@
    }

    fn capsify(&self, cap_symbol: u8) -> (r: Vec<u8>) {
        Capsif::new(cap_symbol).apply(self.as_slice())
    }
}

/// Undoes the escaping of capital letters.
pub struct UnCapsif {
    pub cap_symbol: u8,
}

impl UnCapsif {
    pub fn new(cap_symbol: u8) -> (r: Self)
        ensures
            r.cap_symbol == cap_symbol,
    {
        UnCapsif { cap_symbol }
    }

    /// The unescaped form of `input`, or `None` if an escape byte ends it or
    /// is followed by a byte below 32.
    pub fn apply(&self, input: &[u8]) -> (r: Option<Vec<u8>>)
        ensures
            match r {
                Some(out) => uncapsified(input@, self.cap_symbol) == Some(out@),
                None => uncapsified(input@, self.cap_symbol) is None,
            },
    {
        let ghost s = input@;
        let c = self.cap_symbol;
        let n = input.len();
        let mut out: Vec<u8> = Vec::new();
        let mut i: usize = 0;
        proof {
            assert(s.subrange(0, s.len() as int) =~= s);
            if let Some(rest) = uncapsified(s, c) {
                assert(out@ + rest =~= rest);
            }
        }
        while i < n
            invariant
                s == input@,
                c == self.cap_symbol,
                n == s.len(),
                i <= n,
                uncapsified(s, c) == prefixed(out@, uncapsified(s.subrange(i as int, n as int), c)),
            decreases n - i,
        {
            let ghost sub = s.subrange(i as int, n as int);
            let ghost before = out@;
            let ch = input[i];
            if ch == c {
                if i + 1 < n && input[i + 1] >= 32 {
                    out.push(input[i + 1] - 32);
                    proof {
                        assert(sub.subrange(2, sub.len() as int) =~= s.subrange(i + 2, n as int));
                        if let Some(rest) = uncapsified(s.subrange(i + 2, n as int), c) {
                            assert(before + (seq![(s[i + 1] - 32) as u8] + rest) =~= out@ + rest);
                        }
                    }
                    i += 2;
                } else {
                    proof {
                        assert(sub[0] == ch);
                        if i + 1 < n {
                            assert(sub[1] == s[i + 1]);
                        }
                        assert(uncapsified(sub, c) is None);
                    }
                    return None;
                }
            } else {
                out.push(ch);
                proof {
                    assert(sub.drop_first() =~= s.subrange(i + 1, n as int));
                    if let Some(rest) = uncapsified(s.subrange(i + 1, n as int), c) {
                        assert(before + (seq![ch] + rest) =~= out@ + rest);
                    }
                }
                i += 1;
            }
        }
        proof {
            assert(s.subrange(n as int, n as int) =~= Seq::<u8>::empty());
            assert(out@ + Seq::<u8>::empty() =~= out@);
        }
        Some(out)
    }
}

/// Byte strings that can be unescaped.
pub trait UnCapsifyIterator {
    /// The bytes.
    spec fn byte_seq(&self) -> Seq<u8>;

    /// The unescaped form of the bytes, or `None` if an escape is cut short.
    fn uncapsify(&self, cap_symbol: u8) -> (r: Option<Vec<u8>>)
        ensures
            match r {
                Some(out) => uncapsified(self.byte_seq(), cap_symbol) == Some(out@),
                None => uncapsified(self.byte_seq(), cap_symbol) is None,
            },
    ;
}

impl UnCapsifyIterator for Vec<u8> {
    open spec fn byte_seq(&self) -> Seq<u8> {
        self@
    }

    fn uncapsify(&self, cap_symbol: u8) -> (r: Option<Vec<u8>>) {
        UnCapsif::new(cap_symbol).apply(self.as_slice())
    }
}

/// `<`, which opens a tag.
pub const TAG_OPEN: u8 = 60;

/// `>`, which ends a tag.
pub const TAG_CLOSE: u8 = 62;

/// `/`, which marks closing and self-closing tags.
pub const SLASH: u8 = 47;

/// The space, which ends an element name.
pub const SPACE: u8 = 32;

/// The index of the first `>` in `s` at or after `i` (`s.len()` if there is none).
pub open spec fn tag_end(s: Seq<u8>, i: int) -> int
    decreases s.len() - i,
{
    if i < 0 || i >= s.len() {
        s.len() as int
    } else if s[i] == TAG_CLOSE {
        i
    } else {
        tag_end(s, i + 1)
    }
}

/// The length of the element name at the start of a tag's content: up to
/// the first space.
pub open spec fn name_len(content: Seq<u8>) -> int
    decreases content.len(),
{
    if content.len() == 0 || content[0] == SPACE {
        0
    } else {
        1 + name_len(content.drop_first())
    }
}

/// The element name that an opening tag with this content opens.
pub open spec fn env_name(content: Seq<u8>) -> Seq<u8> {
    content.subrange(0, name_len(content))
}

/// The closing tag of element `name`.
pub open spec fn closing_tag(name: Seq<u8>) -> Seq<u8> {
    seq![TAG_OPEN, SLASH] + name + seq![TAG_CLOSE]
}

/// Views a stack of names as byte sequences.
pub open spec fn names_view(envs: Seq<Vec<u8>>) -> Seq<Seq<u8>> {
    envs.map_values(|e: Vec<u8>| e@)
}

/// The XML-terminated form of `s` from index `p` on, with the names of the
/// open elements in `envs` (innermost last).
///
/// A byte other than `<` stays. A tag `<content>` is read up to the first
/// `>`: a closing tag (`content` starts with `/`) becomes `term_symbol` and
/// closes the innermost element, whose name must start with the rest of the
/// content; any other tag stays, and scanning goes on right after its `<`, so
/// that its content and `>` pass through as well; an opening tag (one whose
/// content does not end in `/`) opens an element named by its content up to
/// the first space. `None` if a tag is not closed by `>`, is empty, or closes
/// no element or another one.
pub open spec fn xml_terminated(s: Seq<u8>, term_symbol: u8, p: int, envs: Seq<Seq<u8>>) -> Option<
    Seq<u8>,
>
    decreases s.len() - p,
{
    if p < 0 || p >= s.len() {
        Some(Seq::empty())
    } else if s[p] != TAG_OPEN {
        prefixed(seq![s[p]], xml_terminated(s, term_symbol, p + 1, envs))
    } else {
        let q = tag_end(s, p + 1);
        if q >= s.len() || q <= p {
            None
        } else {
            let content = s.subrange(p + 1, q);
            if content.len() == 0 {
                None
            } else if content[0] == SLASH {
                if envs.len() > 0 && content.drop_first().is_prefix_of(envs.last()) {
                    prefixed(seq![term_symbol], xml_terminated(s, term_symbol, q + 1, envs.drop_last()))
                } else {
                    None
                }
            } else if content.last() == SLASH {
                prefixed(seq![TAG_OPEN], xml_terminated(s, term_symbol, p + 1, envs))
            } else {
                prefixed(seq![TAG_OPEN], xml_terminated(s, term_symbol, p + 1, envs.push(env_name(content))))
            }
        }
    }
}

/// The form of an XML-terminated `s` from index `p` on with the closing tags
/// written back, with the names of the open elements in `envs`.
///
/// Tags are read as by `xml_terminated` (every tag whose content does not end
/// in `/` opens an element) and stay; `term_symbol` becomes the closing tag of
/// the innermost open element. `None` if a tag is not closed by `>` or
/// `term_symbol` comes with no element open.
pub open spec fn xml_unterminated(s: Seq<u8>, term_symbol: u8, p: int, envs: Seq<Seq<u8>>) -> Option<
    Seq<u8>,
>
    decreases s.len() - p,
{
    if p < 0 || p >= s.len() {
        Some(Seq::empty())
    } else if s[p] == TAG_OPEN {
        let q = tag_end(s, p + 1);
        if q >= s.len() || q <= p {
            None
        } else {
            let content = s.subrange(p + 1, q);
            if content.len() > 0 && content.last() == SLASH {
                prefixed(seq![TAG_OPEN], xml_unterminated(s, term_symbol, p + 1, envs))
            } else {
                prefixed(seq![TAG_OPEN], xml_unterminated(s, term_symbol, p + 1, envs.push(env_name(content))))
            }
        }
    } else if s[p] == term_symbol {
        if envs.len() == 0 {
            None
        } else {
            prefixed(closing_tag(envs.last()), xml_unterminated(s, term_symbol, p + 1, envs.drop_last()))
        }
    } else {
        prefixed(seq![s[p]], xml_unterminated(s, term_symbol, p + 1, envs))
    }
}

proof fn lemma_prefixed_assoc(a: Seq<u8>, b: Seq<u8>, o: Option<Seq<u8>>)
    ensures
        prefixed(a, prefixed(b, o)) == prefixed(a + b, o),
{
    if let Some(r) = o {
        assert(a + (b + r) =~= (a + b) + r);
    }
}

/// The index of the first `>` in `s` at or after `i`.
fn find_tag_end(s: &[u8], i: usize) -> (r: usize)
    requires
        i <= s@.len(),
    ensures
        r == tag_end(s@, i as int),
        i <= r <= s@.len(),
{
    let mut j = i;
    while j < s.len() && s[j] != TAG_CLOSE
        invariant
            i <= j <= s@.len(),
            tag_end(s@, i as int) == tag_end(s@, j as int),
        decreases s@.len() - j,
    {
        j += 1;
    }
    j
}

/// The name that the tag with content `s[from..to]` opens, as a new vector.
fn open_name(s: &[u8], from: usize, to: usize) -> (r: Vec<u8>)
    requires
        from <= to <= s@.len(),
    ensures
        r@ == env_name(s@.subrange(from as int, to as int)),
{
    let ghost content = s@.subrange(from as int, to as int);
    let mut name: Vec<u8> = Vec::new();
    let mut j = from;
    while j < to && s[j] != SPACE
        invariant
            from <= j <= to <= s@.len(),
            content == s@.subrange(from as int, to as int),
            name@ == s@.subrange(from as int, j as int),
            name_len(content) == (j - from) + name_len(s@.subrange(j as int, to as int)),
        decreases to - j,
    {
        proof {
            assert(s@.subrange(j as int, to as int).drop_first() =~= s@.subrange(j + 1, to as int));
        }
        name.push(s[j]);
        proof {
            assert(name@ =~= s@.subrange(from as int, j + 1));
        }
        j += 1;
    }
    proof {
        if j < to {
            assert(s@.subrange(j as int, to as int)[0] == s@[j as int]);
        }
        assert(name@ =~= env_name(content));
    }
    name
}

/// Whether `s[from..to]` is a prefix of `name`.
fn starts_name(s: &[u8], from: usize, to: usize, name: &Vec<u8>) -> (r: bool)
    requires
        from <= to <= s@.len(),
    ensures
        r == s@.subrange(from as int, to as int).is_prefix_of(name@),
{
    if to - from > name.len() {
        return false;
    }
    let mut k: usize = 0;
    while k < to - from
        invariant
            from <= to <= s@.len(),
            to - from <= name@.len(),
            k <= to - from,
            forall|m: int| 0 <= m < k ==> s@[from + m] == name@[m],
        decreases to - from - k,
    {
        if s[from + k] != name[k] {
            proof {
                assert(s@.subrange(from as int, to as int)[k as int] != name@.subrange(
                    0,
                    (to - from) as int,
                )[k as int]);
            }
            return false;
        }
        k += 1;
    }
    proof {
        assert(name@.subrange(0, (to - from) as int) =~= s@.subrange(from as int, to as int));
    }
    true
}

/// Replaces every XML closing tag by one byte, checking that it closes the
/// innermost open element.
pub struct XmlTerminator {
    pub term_symbol: u8,
}

impl XmlTerminator {
    pub fn new(term_symbol: u8) -> (r: Self)
        ensures
            r.term_symbol == term_symbol,
    {
        XmlTerminator { term_symbol }
    }

    /// The XML-terminated form of `input` (see `xml_terminated`).
    pub fn apply(&self, input: &[u8]) -> (r: Option<Vec<u8>>)
        ensures
            match r {
                Some(out) => xml_terminated(input@, self.term_symbol, 0, Seq::empty()) == Some(
                    out@,
                ),
                None => xml_terminated(input@, self.term_symbol, 0, Seq::empty()) is None,
            },
    {
        let ghost s = input@;
        let t = self.term_symbol;
        let n = input.len();
        let mut out: Vec<u8> = Vec::new();
        let mut envs: Vec<Vec<u8>> = Vec::new();
        let mut p: usize = 0;
        proof {
            assert(names_view(envs@) =~= Seq::<Seq<u8>>::empty());
            if let Some(rest) = xml_terminated(s, t, 0, Seq::empty()) {
                assert(out@ + rest =~= rest);
            }
        }
        while p < n
            invariant
                s == input@,
                t == self.term_symbol,
                n == s.len(),
                p <= n,
                xml_terminated(s, t, 0, Seq::empty()) == prefixed(
                    out@,
                    xml_terminated(s, t, p as int, names_view(envs@)),
                ),
            decreases n - p,
        {
            let ghost before = out@;
            let ghost ev = names_view(envs@);
            let ch = input[p];
            if ch != TAG_OPEN {
                out.push(ch);
                proof {
                    lemma_prefixed_assoc(before, seq![ch], xml_terminated(s, t, p + 1, ev));
                    assert(before + seq![ch] =~= out@);
                }
                p += 1;
            } else {
                let q = find_tag_end(input, p + 1);
                if q >= n || q == p + 1 {
                    return None;
                }
                let ghost content = s.subrange(p + 1, q as int);
                if input[p + 1] == SLASH {
                    if envs.len() == 0 {
                        return None;
                    }
                    let top = envs.len() - 1;
                    if !starts_name(input, p + 2, q, &envs[top]) {
                        proof {
                            assert(content.drop_first() =~= s.subrange(p + 2, q as int));
                        }
                        return None;
                    }
                    envs.pop();
                    out.push(t);
                    proof {
                        assert(content.drop_first() =~= s.subrange(p + 2, q as int));
                        assert(names_view(envs@) =~= ev.drop_last());
                        lemma_prefixed_assoc(before, seq![t], xml_terminated(s, t, q + 1, ev.drop_last()));
                        assert(before + seq![t] =~= out@);
                    }
                    p = q + 1;
                } else {
                    if input[q - 1] != SLASH {
                        let name = open_name(input, p + 1, q);
                        envs.push(name);
                        proof {
                            assert(names_view(envs@) =~= ev.push(env_name(content)));
                        }
                    }
                    out.push(TAG_OPEN);
                    proof {
                        assert(content.last() == s[q - 1]);
                        lemma_prefixed_assoc(
                            before,
                            seq![TAG_OPEN],
                            xml_terminated(s, t, p + 1, names_view(envs@)),
                        );
                        assert(before + seq![TAG_OPEN] =~= out@);
                    }
                    p += 1;
                }
            }
        }
        proof {
            assert(out@ + Seq::<u8>::empty() =~= out@);
        }
        Some(out)
    }
}

/// Byte strings whose XML closing tags can be replaced.
pub trait XmltIterator {
    /// The bytes.
    spec fn byte_seq(&self) -> Seq<u8>;

    /// The XML-terminated form of the bytes (see `xml_terminated`).
    fn xml_terminate(&self, term_symbol: u8) -> (r: Option<Vec<u8>>)
        ensures
            match r {
                Some(out) => xml_terminated(self.byte_seq(), term_symbol, 0, Seq::empty()) == Some(
                    out@,
                ),
                None => xml_terminated(self.byte_seq(), term_symbol, 0, Seq::empty()) is None,
            },
    ;
}

impl XmltIterator for Vec<u8> {
    open spec fn byte_seq(&self) -> Seq<u8> {
        self@
    }

    fn xml_terminate(&self, term_symbol: u8) -> (r: Option<Vec<u8>>) {
        XmlTerminator::new(term_symbol).apply(self.as_slice())
    }
}

/// Writes back the closing tags that `XmlTerminator` replaced.
pub struct XmlUnterminator {
    pub term_symbol: u8,
}

impl XmlUnterminator {
    pub fn new(term_symbol: u8) -> (r: Self)
        ensures
            r.term_symbol == term_symbol,
    {
        XmlUnterminator { term_symbol }
    }

    /// `input` with the closing tags written back (see `xml_unterminated`).
    pub fn apply(&self, input: &[u8]) -> (r: Option<Vec<u8>>)
        ensures
            match r {
                Some(out) => xml_unterminated(input@, self.term_symbol, 0, Seq::empty()) == Some(
                    out@,
                ),
                None => xml_unterminated(input@, self.term_symbol, 0, Seq::empty()) is None,
            },
    {
        let ghost s = input@;
        let t = self.term_symbol;
        let n = input.len();
        let mut out: Vec<u8> = Vec::new();
        let mut envs: Vec<Vec<u8>> = Vec::new();
        let mut p: usize = 0;
        proof {
            assert(names_view(envs@) =~= Seq::<Seq<u8>>::empty());
            if let Some(rest) = xml_unterminated(s, t, 0, Seq::empty()) {
                assert(out@ + rest =~= rest);
            }
        }
        while p < n
            invariant
                s == input@,
                t == self.term_symbol,
                n == s.len(),
                p <= n,
                xml_unterminated(s, t, 0, Seq::empty()) == prefixed(
                    out@,
                    xml_unterminated(s, t, p as int, names_view(envs@)),
                ),
            decreases n - p,
        {
            let ghost before = out@;
            let ghost ev = names_view(envs@);
            let ch = input[p];
            if ch == TAG_OPEN {
                let q = find_tag_end(input, p + 1);
                if q >= n {
                    return None;
                }
                let ghost content = s.subrange(p + 1, q as int);
                if !(q > p + 1 && input[q - 1] == SLASH) {
                    let name = open_name(input, p + 1, q);
                    envs.push(name);
                    proof {
                        assert(names_view(envs@) =~= ev.push(env_name(content)));
                    }
                }
                out.push(TAG_OPEN);
                proof {
                    if q > p + 1 {
                        assert(content.last() == s[q - 1]);
                    }
                    lemma_prefixed_assoc(
                        before,
                        seq![TAG_OPEN],
                        xml_unterminated(s, t, p + 1, names_view(envs@)),
                    );
                    assert(before + seq![TAG_OPEN] =~= out@);
                }
                p += 1;
            } else if ch == t {
                if envs.len() == 0 {
                    return None;
                }
                let name = envs.pop().unwrap();
                out.push(TAG_OPEN);
                out.push(SLASH);
                let mut k: usize = 0;
                while k < name.len()
                    invariant
                        out@ == before + seq![TAG_OPEN, SLASH] + name@.subrange(0, k as int),
                        k <= name@.len(),
                    decreases name@.len() - k,
                {
                    out.push(name[k]);
                    proof {
                        assert(out@ =~= before + seq![TAG_OPEN, SLASH] + name@.subrange(0, k + 1));
                    }
                    k += 1;
                }
                out.push(TAG_CLOSE);
                proof {
                    assert(names_view(envs@) =~= ev.drop_last());
                    assert(name@ == ev.last());
                    assert(out@ =~= before + closing_tag(name@));
                    lemma_prefixed_assoc(
                        before,
                        closing_tag(name@),
                        xml_unterminated(s, t, p + 1, ev.drop_last()),
                    );
                }
                p += 1;
            } else {
                out.push(ch);
                proof {
                    lemma_prefixed_assoc(before, seq![ch], xml_unterminated(s, t, p + 1, ev));
                    assert(before + seq![ch] =~= out@);
                }
                p += 1;
            }
        }
        proof {
            assert(out@ + Seq::<u8>::empty() =~= out@);
        }
        Some(out)
    }
}

/// Byte strings whose replaced XML closing tags can be written back.
pub trait XmlutIterator {
    /// The bytes.
    spec fn byte_seq(&self) -> Seq<u8>;

    /// The bytes with the closing tags written back (see `xml_unterminated`).
    fn xml_unterminate(&self, term_symbol: u8) -> (r: Option<Vec<u8>>)
        ensures
            match r {
                Some(out) => xml_unterminated(self.byte_seq(), term_symbol, 0, Seq::empty()) == Some(
                    out@,
                ),
                None => xml_unterminated(self.byte_seq(), term_symbol, 0, Seq::empty()) is None,
            },
    ;
}

impl XmlutIterator for Vec<u8> {
    open spec fn byte_seq(&self) -> Seq<u8> {
        self@
    }

    fn xml_unterminate(&self, term_symbol: u8) -> (r: Option<Vec<u8>>) {
        XmlUnterminator::new(term_symbol).apply(self.as_slice())
    }
}

} // verus!
