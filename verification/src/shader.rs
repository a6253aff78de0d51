//! The sources of all shaders by name, and the rules by which one shader
//! includes another.

use vstd::prelude::*;
use vstd::string::*;

verus! {

/// How the renderer drives its draw calls.
#[derive(Debug, Clone, Copy, PartialEq, Eq, Structural)]
pub enum RendererProfile {
    /// The CPU decides what is drawn.
    CpuDriven,
    /// The GPU decides what is drawn.
    GpuDriven,
}

/// What a shader template is rendered with.
#[derive(Debug)]
pub struct ShaderConfig {
    pub profile: Option<RendererProfile>,
}

impl Default for ShaderConfig {
    fn default() -> (config: Self)
        ensures
            config.profile is None,
    {
        ShaderConfig { profile: None }
    }
}

/// One registered shader.
struct ShaderFile {
    name: String,
    contents: String,
}

/// The registered shaders. No name is registered twice.
pub struct ShaderPreProcessor {
    files: Vec<ShaderFile>,
}

/// Whether entry `i` of `files` has the name `name`.
spec fn named(files: Seq<ShaderFile>, i: int, name: Seq<char>) -> bool {
    0 <= i < files.len() && files[i].name@ == name
}

impl View for ShaderPreProcessor {
    type V = Map<Seq<char>, Seq<char>>;

    /// The contents of each registered shader, by name.
    closed spec fn view(&self) -> Map<Seq<char>, Seq<char>> {
        Map::new(
            |name: Seq<char>| exists|i: int| named(self.files@, i, name),
            |name: Seq<char>| self.files@[choose|i: int| named(self.files@, i, name)].contents@,
        )
    }
}

impl Default for ShaderPreProcessor {
    fn default() -> (preprocessor: Self)
        ensures
            preprocessor.wf(),
            preprocessor@ == Map::<Seq<char>, Seq<char>>::empty(),
    {
        Self::new()
    }
}

impl ShaderPreProcessor {
    /// No name is registered twice.
    pub closed spec fn wf(&self) -> bool {
        forall|i: int, j: int|
            0 <= i < j < self.files@.len() ==> (#[trigger] self.files@[i]).name@ != (
            #[trigger] self.files@[j]).name@
    }

    /// The registered names, in the order in which `files` lists them.
    pub closed spec fn names(&self) -> Seq<Seq<char>> {
        Seq::new(self.files@.len(), |i: int| self.files@[i].name@)
    }

    /// `names` lists each registered name once.
    pub proof fn lemma_names(&self)
        requires
            self.wf(),
        ensures
            self.names().no_duplicates(),
            self.names().to_set() == self@.dom(),
            self@.dom().finite(),
            self.names().len() == self@.dom().len(),
    {
        let names = self.names();
        assert forall|i: int, j: int| 0 <= i < names.len() && 0 <= j < names.len() && i != j implies names[i]
            != names[j] by {
            if i < j {
                assert(self.files@[i].name@ != self.files@[j].name@);
            } else {
                assert(self.files@[j].name@ != self.files@[i].name@);
            }
        }
        assert forall|name: Seq<char>| names.to_set().contains(name) <==> self@.dom().contains(
            name,
        ) by {
            if names.to_set().contains(name) {
                let i = choose|i: int| 0 <= i < names.len() && names[i] == name;
                assert(named(self.files@, i, name));
            }
            if self@.dom().contains(name) {
                let i = choose|i: int| named(self.files@, i, name);
                assert(names[i] == name);
            }
        }
        assert(names.to_set() =~= self@.dom());
        names.unique_seq_to_set();
    }

    /// A preprocessor in which no shader is registered.
    pub fn new() -> (preprocessor: Self)
        ensures
            preprocessor.wf(),
            preprocessor@ == Map::<Seq<char>, Seq<char>>::empty(),
    {
        let preprocessor = ShaderPreProcessor { files: Vec::new() };
        assert(preprocessor@ =~= Map::<Seq<char>, Seq<char>>::empty());
        preprocessor
    }

    /// Where `name` is registered, if it is.
    fn find(&self, name: &String) -> (found: Option<usize>)
        requires
            self.wf(),
        ensures
            match found {
                Some(i) => named(self.files@, i as int, name@) && self@.contains_key(name@)
                    && self@[name@] == self.files@[i as int].contents@,
                None => !self@.contains_key(name@),
            },
    {
        let mut i: usize = 0;
        while i < self.files.len()
            invariant
                self.wf(),
                i <= self.files@.len(),
                forall|j: int| 0 <= j < i ==> (#[trigger] self.files@[j]).name@ != name@,
            decreases self.files@.len() - i,
        {
            if self.files[i].name == *name {
                proof {
                    assert(named(self.files@, i as int, name@));
                    let c = choose|c: int| named(self.files@, c, name@);
                    if c < i {
                        assert(self.files@[c].name@ != self.files@[i as int].name@);
                    } else if c > i {
                        assert(self.files@[i as int].name@ != self.files@[c].name@);
                    }
                }
                return Some(i);
            }
            i += 1;
        }
        proof {
            if self@.contains_key(name@) {
                let c = choose|c: int| named(self.files@, c, name@);
                assert(self.files@[c].name@ != name@);
            }
        }
        None
    }

    /// Registers `contents` under `name`, in place of what was registered
    /// under that name before.
    pub fn add_shader(&mut self, name: &str, contents: &str)
        requires
            old(self).wf(),
        ensures
            final(self).wf(),
            final(self)@ == old(self)@.insert(name@, contents@),
    {
        let name = name.to_owned();
        let contents = contents.to_owned();
        let ghost before = self.files@;
        match self.find(&name) {
            Some(i) => {
                self.files.set(i, ShaderFile { name, contents });
                proof {
                    let after = self.files@;
                    assert forall|a: int, b: int| 0 <= a < b < after.len() implies (
                    #[trigger] after[a]).name@ != (#[trigger] after[b]).name@ by {
                        assert(before[a].name@ != before[b].name@);
                    }
                    lemma_view_of(*self);
                    lemma_view_of(*old(self));
                    assert forall|n: Seq<char>| self@.contains_key(n) <==> old(self)@.insert(
                        name@,
                        contents@,
                    ).contains_key(n) by {
                        if self@.contains_key(n) {
                            let c = choose|c: int| named(after, c, n);
                            assert(named(before, c, n));
                        }
                        if old(self)@.contains_key(n) {
                            let c = choose|c: int| named(before, c, n);
                            assert(named(after, c, n));
                        }
                        if n == name@ {
                            assert(named(after, i as int, n));
                        }
                    }
                    assert forall|n: Seq<char>| self@.contains_key(n) implies self@[n] == old(
                        self,
                    )@.insert(name@, contents@)[n] by {
                        let c = choose|c: int| named(after, c, n);
                        assert(named(before, c, n));
                        if n != name@ {
                            assert(c != i);
                        } else {
                            if c < i {
                                assert(after[c].name@ != after[i as int].name@);
                            } else if c > i {
                                assert(after[i as int].name@ != after[c].name@);
                            }
                        }
                    }
                    assert(self@ =~= old(self)@.insert(name@, contents@));
                }
            },
            None => {
                self.files.push(ShaderFile { name, contents });
                proof {
                    let after = self.files@;
                    let last = before.len() as int;
                    assert forall|a: int, b: int| 0 <= a < b < after.len() implies (
                    #[trigger] after[a]).name@ != (#[trigger] after[b]).name@ by {
                        if b < last {
                            assert(before[a].name@ != before[b].name@);
                        } else {
                            assert(named(before, a, after[a].name@));
                        }
                    }
                    lemma_view_of(*self);
                    lemma_view_of(*old(self));
                    assert forall|n: Seq<char>| self@.contains_key(n) <==> old(self)@.insert(
                        name@,
                        contents@,
                    ).contains_key(n) by {
                        if self@.contains_key(n) {
                            let c = choose|c: int| named(after, c, n);
                            if c < last {
                                assert(named(before, c, n));
                            }
                        }
                        if old(self)@.contains_key(n) {
                            let c = choose|c: int| named(before, c, n);
                            assert(named(after, c, n));
                        }
                        if n == name@ {
                            assert(named(after, last, n));
                        }
                    }
                    assert forall|n: Seq<char>| self@.contains_key(n) implies self@[n] == old(
                        self,
                    )@.insert(name@, contents@)[n] by {
                        let c = choose|c: int| named(after, c, n);
                        if n != name@ {
                            assert(c < last);
                            assert(named(before, c, n));
                        } else {
                            if c < last {
                                assert(named(before, c, n));
                            }
                        }
                    }
                    assert(self@ =~= old(self)@.insert(name@, contents@));
                }
            },
        }
    }

    /// The names of the registered shaders, each once.
    pub fn files(&self) -> (names: Vec<&String>)
        requires
            self.wf(),
        ensures
            names@.len() == self.names().len(),
            forall|i: int| 0 <= i < names@.len() ==> (#[trigger] names@[i])@ == self.names()[i],
    {
        let mut names: Vec<&String> = Vec::new();
        let mut i: usize = 0;
        while i < self.files.len()
            invariant
                i <= self.files@.len(),
                names@.len() == i,
                forall|j: int| 0 <= j < i ==> (#[trigger] names@[j])@ == self.files@[j].name@,
            decreases self.files@.len() - i,
        {
            names.push(&self.files[i].name);
            i += 1;
        }
        names
    }

    /// What is registered under `name`, if anything.
    pub fn get(&self, name: &str) -> (contents: Option<&String>)
        requires
            self.wf(),
        ensures
            match contents {
                Some(text) => self@.contains_key(name@) && text@ == self@[name@],
                None => !self@.contains_key(name@),
            },
    {
        let name = name.to_owned();
        match self.find(&name) {
            Some(i) => Some(&self.files[i].contents),
            None => None,
        }
    }
}

/// A registered name maps to the contents of the one entry that has it.
proof fn lemma_view_of(preprocessor: ShaderPreProcessor)
    requires
        preprocessor.wf(),
    ensures
        forall|i: int|
            0 <= i < preprocessor.files@.len() ==> preprocessor@.contains_key(
                (#[trigger] preprocessor.files@[i]).name@,
            ) && preprocessor@[preprocessor.files@[i].name@] == preprocessor.files@[i].contents@,
{
    let files = preprocessor.files@;
    assert forall|i: int| 0 <= i < files.len() implies preprocessor@.contains_key(
        (#[trigger] files[i]).name@,
    ) && preprocessor@[files[i].name@] == files[i].contents@ by {
        let n = files[i].name@;
        assert(named(files, i, n));
        let c = choose|c: int| named(files, c, n);
        if c < i {
            assert(files[c].name@ != files[i].name@);
        } else if c > i {
            assert(files[i].name@ != files[c].name@);
        }
    }
}

/// Whether `p` shows that `a` is not after `b`: they agree before `p`,
/// and there `a` ends or has the smaller byte.
pub open spec fn shows_le(a: Seq<u8>, b: Seq<u8>, p: int) -> bool {
    &&& 0 <= p <= a.len()
    &&& p <= b.len()
    &&& forall|i: int| 0 <= i < p ==> a[i] == b[i]
    &&& (p == a.len() || (p < b.len() && a[p] < b[p]))
}

/// Whether `a` is not after `b` in the order of their bytes: they agree
/// up to some place where `a` ends or has the smaller byte.
pub open spec fn bytes_le(a: Seq<u8>, b: Seq<u8>) -> bool {
    exists|p: int| shows_le(a, b, p)
}

/// Whether the text `a` is not after the text `b`, as `str` orders them:
/// by their UTF-8 bytes.
#[verifier::opaque]
pub open spec fn text_le(a: Seq<char>, b: Seq<char>) -> bool {
    bytes_le(vstd::utf8::encode_utf8(a), vstd::utf8::encode_utf8(b))
}

/// Whether no entry of `names` stands right before one that should come
/// before it.
pub open spec fn in_order(names: Seq<Seq<char>>) -> bool {
    forall|i: int| 0 <= i < names.len() - 1 ==> text_le(#[trigger] names[i], names[i + 1])
}

/// Whether `names` lists the names registered in `files`, each once and
/// in order.
pub open spec fn is_listing(files: Map<Seq<char>, Seq<char>>, names: Seq<Seq<char>>) -> bool {
    &&& names.len() == files.dom().len()
    &&& names.to_set() == files.dom()
    &&& in_order(names)
}

/// No text is after itself, and a text that is not after a second, which
/// is not after a third, is not after the third.
pub proof fn lemma_text_order(a: Seq<char>, b: Seq<char>, c: Seq<char>)
    ensures
        text_le(a, a),
        text_le(a, b) && text_le(b, c) ==> text_le(a, c),
{
    reveal(text_le);
    let x = vstd::utf8::encode_utf8(a);
    let y = vstd::utf8::encode_utf8(b);
    let z = vstd::utf8::encode_utf8(c);
    assert(shows_le(x, x, x.len() as int));
    if bytes_le(x, y) && bytes_le(y, z) {
        let p = choose|p: int| shows_le(x, y, p);
        let q = choose|q: int| shows_le(y, z, q);
        if p <= q {
            assert(shows_le(x, z, p));
        } else {
            assert(shows_le(x, z, q));
        }
    }
}

/// In a listing that is in order, no name is after one that stands later.
pub proof fn lemma_listing_sorted(names: Seq<Seq<char>>, i: int, j: int)
    requires
        in_order(names),
        0 <= i <= j < names.len(),
    ensures
        text_le(names[i], names[j]),
    decreases j - i,
{
    if i == j {
        lemma_text_order(names[i], names[i], names[i]);
    } else {
        lemma_listing_sorted(names, i + 1, j);
        lemma_text_order(names[i], names[i + 1], names[j]);
    }
}

/// The registered names in order: the one listing that `files` has.
pub open spec fn listing(files: Map<Seq<char>, Seq<char>>) -> Seq<Seq<char>> {
    choose|names: Seq<Seq<char>>| is_listing(files, names)
}

/// Two texts of which neither is after the other are the same text.
pub proof fn lemma_text_order_exact(a: Seq<char>, b: Seq<char>)
    requires
        text_le(a, b),
        text_le(b, a),
    ensures
        a == b,
{
    reveal(text_le);
    let x = vstd::utf8::encode_utf8(a);
    let y = vstd::utf8::encode_utf8(b);
    let p = choose|p: int| shows_le(x, y, p);
    let q = choose|q: int| shows_le(y, x, q);
    if p < q {
        assert(y[p] == x[p]);
    } else if q < p {
        assert(x[q] == y[q]);
    }
    assert(x =~= y);
    vstd::utf8::encode_utf8_decode_utf8(a);
    vstd::utf8::encode_utf8_decode_utf8(b);
}

/// The registered names have one listing only.
pub proof fn lemma_listing_unique(
    files: Map<Seq<char>, Seq<char>>,
    first: Seq<Seq<char>>,
    second: Seq<Seq<char>>,
)
    requires
        is_listing(files, first),
        is_listing(files, second),
    ensures
        first == second,
{
    lemma_same_names(files.dom(), first, second);
}

/// A listing of the registered names is the listing.
pub proof fn lemma_listing(files: Map<Seq<char>, Seq<char>>, names: Seq<Seq<char>>)
    requires
        is_listing(files, names),
    ensures
        names == listing(files),
{
    lemma_listing_unique(files, names, listing(files));
}

/// Two sequences in order that hold the same names, each once, are the same.
proof fn lemma_same_names(names: Set<Seq<char>>, first: Seq<Seq<char>>, second: Seq<Seq<char>>)
    requires
        first.len() == names.len(),
        second.len() == names.len(),
        first.to_set() == names,
        second.to_set() == names,
        in_order(first),
        in_order(second),
    ensures
        first == second,
    decreases first.len(),
{
    broadcast use vstd::seq_lib::seq_to_set_is_finite;

    if first.len() == 0 {
        assert(first =~= second);
    } else {
        first.lemma_no_dup_set_cardinality();
        second.lemma_no_dup_set_cardinality();
        let a = first.last();
        let b = second.last();
        assert(first.contains(a));
        assert(second.contains(b));
        assert(second.to_set().contains(a));
        assert(first.to_set().contains(b));
        let j = choose|j: int| 0 <= j < second.len() && second[j] == a;
        let i = choose|i: int| 0 <= i < first.len() && first[i] == b;
        lemma_listing_sorted(second, j, second.len() - 1);
        lemma_listing_sorted(first, i, first.len() - 1);
        lemma_text_order_exact(a, b);
        let rest = names.remove(a);
        assert(first.drop_last().to_set() =~= rest) by {
            assert forall|n: Seq<char>| first.drop_last().to_set().contains(n) <==> rest.contains(
                n,
            ) by {
                if first.drop_last().contains(n) {
                    let k = choose|k: int| 0 <= k < first.len() - 1 && first.drop_last()[k] == n;
                    assert(first[k] == n);
                    assert(first.contains(n));
                }
                if rest.contains(n) {
                    assert(first.to_set().contains(n));
                    let k = choose|k: int| 0 <= k < first.len() && first[k] == n;
                    assert(first.drop_last()[k] == n);
                }
            }
        }
        assert(second.drop_last().to_set() =~= rest) by {
            assert forall|n: Seq<char>| second.drop_last().to_set().contains(n) <==> rest.contains(
                n,
            ) by {
                if second.drop_last().contains(n) {
                    let k = choose|k: int| 0 <= k < second.len() - 1 && second.drop_last()[k] == n;
                    assert(second[k] == n);
                    assert(second.contains(n));
                }
                if rest.contains(n) {
                    assert(second.to_set().contains(n));
                    let k = choose|k: int| 0 <= k < second.len() && second[k] == n;
                    assert(second.drop_last()[k] == n);
                }
            }
        }
        assert(in_order(first.drop_last())) by {
            assert forall|k: int| 0 <= k < first.drop_last().len() - 1 implies text_le(
                #[trigger] first.drop_last()[k],
                first.drop_last()[k + 1],
            ) by {
                assert(text_le(first[k], first[k + 1]));
            }
        }
        assert(in_order(second.drop_last())) by {
            assert forall|k: int| 0 <= k < second.drop_last().len() - 1 implies text_le(
                #[trigger] second.drop_last()[k],
                second.drop_last()[k + 1],
            ) by {
                assert(text_le(second[k], second[k + 1]));
            }
        }
        lemma_same_names(rest, first.drop_last(), second.drop_last());
        assert(first =~= first.drop_last().push(a));
        assert(second =~= second.drop_last().push(b));
    }
}

/// `names` one after the other, with `separator` between each two.
pub open spec fn joined(names: Seq<Seq<char>>, separator: Seq<char>) -> Seq<char>
    decreases names.len(),
{
    if names.len() == 0 {
        Seq::empty()
    } else if names.len() == 1 {
        names[0]
    } else {
        joined(names.drop_last(), separator) + separator + names.last()
    }
}

/// The texts of `names`.
pub open spec fn texts(names: Seq<&String>) -> Seq<Seq<char>> {
    Seq::new(names.len(), |i: int| names[i]@)
}

/// Whether `a` is not after `b` in the order of their bytes.
fn is_not_after(a: &str, b: &str) -> (le: bool)
    ensures
        le == text_le(a@, b@),
        !le ==> text_le(b@, a@),
{
    let x = a.as_bytes();
    let y = b.as_bytes();
    reveal(text_le);
    assert(x@ == vstd::utf8::encode_utf8(a@));
    assert(y@ == vstd::utf8::encode_utf8(b@));
    let mut i: usize = 0;
    while i < x.len() && i < y.len() && x[i] == y[i]
        invariant
            i <= x@.len(),
            i <= y@.len(),
            forall|j: int| 0 <= j < i ==> x@[j] == y@[j],
        decreases x@.len() - i,
    {
        i += 1;
    }
    let le = i == x.len() || (i < y.len() && x[i] < y[i]);
    proof {
        let p = i as int;
        if le {
            assert(shows_le(x@, y@, p));
        } else {
            assert(shows_le(y@, x@, p));
            if bytes_le(x@, y@) {
                let q = choose|q: int| shows_le(x@, y@, q);
                if q > p {
                    assert(x@[p] == y@[p]);
                }
                assert(false);
            }
        }
    }
    le
}

/// Whether `listing` holds the first `count` of `names`, in order.
spec fn lists_first(names: Seq<Seq<char>>, count: int, listing: Seq<Seq<char>>) -> bool {
    &&& listing.len() == count
    &&& listing.to_set() == names.take(count).to_set()
    &&& in_order(listing)
}

/// The next name, put where the names up to it are not after it and the
/// name there is not before it, extends the listing by one.
proof fn lemma_listing_insert(
    names: Seq<Seq<char>>,
    count: int,
    before: Seq<Seq<char>>,
    at: int,
    after: Seq<Seq<char>>,
)
    requires
        0 <= count < names.len(),
        lists_first(names, count, before),
        0 <= at <= before.len(),
        forall|p: int| 0 <= p < at ==> text_le(#[trigger] before[p], names[count]),
        at < before.len() ==> text_le(names[count], before[at]),
        after == before.insert(at, names[count]),
    ensures
        lists_first(names, count + 1, after),
{
    let x = names[count];
    assert forall|p: int| 0 <= p < after.len() implies #[trigger] after[p] == (if p < at {
        before[p]
    } else if p == at {
        x
    } else {
        before[p - 1]
    }) by {}
    assert forall|n: Seq<char>| after.to_set().contains(n) <==> before.to_set().insert(x).contains(
        n,
    ) by {
        if after.contains(n) {
            let p = choose|p: int| 0 <= p < after.len() && after[p] == n;
            if p < at {
                assert(before[p] == n);
            } else if p > at {
                assert(before[p - 1] == n);
            }
        }
        if before.contains(n) {
            let p = choose|p: int| 0 <= p < before.len() && before[p] == n;
            let q = if p < at { p } else { p + 1 };
            assert(after[q] == n);
        }
        if n == x {
            assert(after[at] == n);
        }
    }
    let sooner = names.take(count);
    let later = names.take(count + 1);
    assert forall|n: Seq<char>| later.to_set().contains(n) <==> sooner.to_set().insert(x).contains(
        n,
    ) by {
        if later.contains(n) {
            let p = choose|p: int| 0 <= p < later.len() && later[p] == n;
            if p < count {
                assert(sooner[p] == n);
            }
        }
        if sooner.contains(n) {
            let p = choose|p: int| 0 <= p < sooner.len() && sooner[p] == n;
            assert(later[p] == n);
        }
        if n == x {
            assert(later[count] == n);
        }
    }
    assert(after.to_set() =~= later.to_set());
    assert forall|p: int| 0 <= p < after.len() - 1 implies text_le(
        #[trigger] after[p],
        after[p + 1],
    ) by {
        if p + 1 < at {
            assert(text_le(before[p], before[p + 1]));
        } else if p + 1 == at {
            assert(text_le(before[p], x));
        } else if p == at {
        } else {
            assert(text_le(before[p - 1], before[p]));
        }
    }
}

impl ShaderPreProcessor {
    /// The registered names in the order of their bytes.
    pub fn sorted_names(&self) -> (names: Vec<&String>)
        requires
            self.wf(),
        ensures
            is_listing(self@, texts(names@)),
            texts(names@) == listing(self@),
    {
        let mut names: Vec<&String> = Vec::new();
        let mut i: usize = 0;
        assert(texts(names@).to_set() =~= self.names().take(0).to_set());
        while i < self.files.len()
            invariant
                i <= self.files@.len(),
                lists_first(self.names(), i as int, texts(names@)),
            decreases self.files@.len() - i,
        {
            let name = &self.files[i].name;
            let mut at: usize = 0;
            while at < names.len() && is_not_after(names[at].as_str(), name.as_str())
                invariant
                    at <= names@.len(),
                    forall|p: int| 0 <= p < at ==> text_le(#[trigger] texts(names@)[p], name@),
                decreases names@.len() - at,
            {
                at += 1;
            }
            let ghost before = texts(names@);
            proof {
                if at < names@.len() {
                    assert(before[at as int] == names@[at as int]@);
                    assert(text_le(name@, before[at as int]));
                }
            }
            names.insert(at, name);
            proof {
                assert(texts(names@) =~= before.insert(at as int, name@));
                assert(self.names()[i as int] == name@);
                lemma_listing_insert(self.names(), i as int, before, at as int, texts(names@));
            }
            i += 1;
        }
        proof {
            self.lemma_names();
            assert(self.names().take(self.names().len() as int) =~= self.names());
            lemma_listing(self@, texts(names@));
        }
        names
    }

    /// What is registered under `base`, or, where nothing is, the message
    /// that says so and lists the registered names.
    pub fn base_shader(&self, base: &str) -> (found: Result<&String, String>)
        requires
            self.wf(),
        ensures
            match found {
                Ok(text) => self@.contains_key(base@) && text@ == self@[base@],
                Err(message) => !self@.contains_key(base@) && message@ == "Base shader "@ + base@
                    + " is not registered. All registered shaders: "@ + joined(
                    listing(self@),
                    ", "@,
                ),
            },
    {
        match self.get(base) {
            Some(text) => Ok(text),
            None => {
                let listing = registered_shader_string(self);
                let mut message = String::from_str("Base shader ");
                message.append(base);
                message.append(" is not registered. All registered shaders: ");
                message.append(listing.as_str());
                Err(message)
            },
        }
    }
}

/// The name under which the embedded file `file` is registered for
/// `prefix`: the prefix, a slash, and the file's path.
pub fn embedded_name(prefix: &str, file: &str) -> (name: String)
    ensures
        name@ == prefix@ + "/"@ + file@,
{
    let mut name = prefix.to_owned();
    name.append("/");
    name.append(file);
    name
}

/// `names` joined by `separator`.
fn join(names: &Vec<&String>, separator: &str) -> (text: String)
    ensures
        text@ == joined(texts(names@), separator@),
{
    let mut text = String::new();
    let mut i: usize = 0;
    while i < names.len()
        invariant
            i <= names@.len(),
            text@ == joined(texts(names@).take(i as int), separator@),
        decreases names@.len() - i,
    {
        let ghost so_far = texts(names@).take(i as int);
        let ghost next = texts(names@).take(i + 1);
        proof {
            assert(next.drop_last() =~= so_far);
            assert(next.last() == names@[i as int]@);
        }
        if i > 0 {
            text.append(separator);
        } else {
            proof {
                assert(so_far.len() == 0);
                assert(text@ + names@[i as int]@ =~= names@[i as int]@);
            }
        }
        text.append(names[i].as_str());
        i += 1;
    }
    proof {
        assert(texts(names@).take(names@.len() as int) =~= texts(names@));
    }
    text
}

/// The registered names in the order of their bytes, separated by a comma
/// and a space.
pub fn registered_shader_string(files: &ShaderPreProcessor) -> (text: String)
    requires
        files.wf(),
    ensures
        is_listing(files@, listing(files@)),
        text@ == joined(listing(files@), ", "@),
{
    let names = files.sorted_names();
    join(&names, ", ")
}

/// What an `include` in a template was given as its first argument.
pub enum IncludeArgument<'a> {
    /// Nothing.
    Missing,
    /// A value that is no string.
    NotAString,
    /// The name of the shader to include.
    Name(&'a str),
}

/// What an `include` in a template comes to.
pub enum Inclusion<'a> {
    /// Nothing is written: the shader was included before.
    Skip,
    /// The shader is rendered in place of the `include`.
    Render(&'a String),
    /// The rendering fails with this message.
    Fail(String),
}

/// Follows the includes of one rendering, so that each shader is included
/// at most once and the base shader not at all.
pub struct ShaderIncluder<'a> {
    files: &'a ShaderPreProcessor,
    include_state: Vec<String>,
}

/// Whether an `include` with `argument`, after the shaders in `seen` were
/// included, comes to `inclusion` and leaves `seen_after` included.
///
/// A name that was seen is skipped. Any other name counts as seen from now
/// on, whether it is registered or not; it is rendered where it is
/// registered and fails the rendering where it is not.
pub open spec fn includes(
    files: Map<Seq<char>, Seq<char>>,
    seen: Set<Seq<char>>,
    argument: IncludeArgument,
    inclusion: Inclusion,
    seen_after: Set<Seq<char>>,
) -> bool {
    match argument {
        IncludeArgument::Missing => {
            &&& seen_after == seen
            &&& inclusion matches Inclusion::Fail(message)
            &&& message@ == "include helper must have a single argument for the include path"@
        },
        IncludeArgument::NotAString => {
            &&& seen_after == seen
            &&& inclusion matches Inclusion::Fail(message)
            &&& message@ == "include helper's first argument must be a string"@
        },
        IncludeArgument::Name(name) => if seen.contains(name@) {
            &&& seen_after == seen
            &&& inclusion is Skip
        } else if files.contains_key(name@) {
            &&& seen_after == seen.insert(name@)
            &&& inclusion matches Inclusion::Render(text)
            &&& text@ == files[name@]
        } else {
            &&& seen_after == seen.insert(name@)
            &&& inclusion matches Inclusion::Fail(message)
            &&& message@ == "Included file \""@ + name@
                + "\" is not registered. All registered files: "@ + joined(listing(files), ", "@)
        },
    }
}

impl<'a> ShaderIncluder<'a> {
    /// The names that count as included.
    pub closed spec fn included(&self) -> Set<Seq<char>> {
        Set::new(|name: Seq<char>| exists|i: int| seen_at(self.include_state@, i, name))
    }

    /// The shaders that can be included.
    pub closed spec fn files(&self) -> ShaderPreProcessor {
        *self.files
    }

    /// An includer for the rendering of `base` over `files`. The base
    /// shader counts as included.
    pub fn new(base: &str, files: &'a ShaderPreProcessor) -> (includer: Self)
        ensures
            includer.files() == *files,
            includer.included() == Set::<Seq<char>>::empty().insert(base@),
    {
        let mut include_state: Vec<String> = Vec::new();
        include_state.push(base.to_owned());
        let includer = ShaderIncluder { files, include_state };
        proof {
            assert forall|name: Seq<char>| includer.included().contains(name) <==> name
                == base@ by {
                if name == base@ {
                    assert(seen_at(includer.include_state@, 0, name));
                }
            }
            assert(includer.included() =~= Set::<Seq<char>>::empty().insert(base@));
        }
        includer
    }

    /// Whether `name` counts as included.
    fn has_seen(&self, name: &String) -> (seen: bool)
        ensures
            seen == self.included().contains(name@),
    {
        let mut i: usize = 0;
        while i < self.include_state.len()
            invariant
                i <= self.include_state@.len(),
                forall|j: int| 0 <= j < i ==> !seen_at(self.include_state@, j, name@),
            decreases self.include_state@.len() - i,
        {
            if self.include_state[i] == *name {
                assert(seen_at(self.include_state@, i as int, name@));
                return true;
            }
            i += 1;
        }
        false
    }

    /// Decides what an `include` with `argument` comes to.
    pub fn call(&mut self, argument: IncludeArgument<'_>) -> (inclusion: Inclusion<'a>)
        requires
            old(self).files().wf(),
        ensures
            final(self).files() == old(self).files(),
            includes(old(self).files()@, old(self).included(), argument, inclusion, final(self).included()),
    {
        let file_name = match argument {
            IncludeArgument::Missing => {
                return Inclusion::Fail(
                    String::from_str(
                        "include helper must have a single argument for the include path",
                    ),
                );
            },
            IncludeArgument::NotAString => {
                return Inclusion::Fail(
                    String::from_str("include helper's first argument must be a string"),
                );
            },
            IncludeArgument::Name(name) => name,
        };
        let owned = file_name.to_owned();
        if self.has_seen(&owned) {
            return Inclusion::Skip;
        }
        self.include_state.push(owned);
        proof {
            let before = old(self).include_state@;
            let after = self.include_state@;
            assert forall|name: Seq<char>| self.included().contains(name) <==> old(
                self,
            ).included().insert(file_name@).contains(name) by {
                if self.included().contains(name) {
                    let i = choose|i: int| seen_at(after, i, name);
                    if i < before.len() {
                        assert(seen_at(before, i, name));
                    }
                }
                if old(self).included().contains(name) {
                    let i = choose|i: int| seen_at(before, i, name);
                    assert(seen_at(after, i, name));
                }
                if name == file_name@ {
                    assert(seen_at(after, before.len() as int, name));
                }
            }
            assert(self.included() =~= old(self).included().insert(file_name@));
        }
        match self.files.get(file_name) {
            Some(contents) => Inclusion::Render(contents),
            None => {
                let listing = registered_shader_string(self.files);
                let mut message = String::from_str("Included file \"");
                message.append(file_name);
                message.append("\" is not registered. All registered files: ");
                message.append(listing.as_str());
                Inclusion::Fail(message)
            },
        }
    }
}

/// Whether entry `i` of `seen` is `name`.
spec fn seen_at(seen: Seq<String>, i: int, name: Seq<char>) -> bool {
    0 <= i < seen.len() && seen[i]@ == name
}

} // verus!
