//! The word corpus: a text with one word per line, and how it is split.

use vstd::prelude::*;
use vstd::string::*;

verus! {

/// The corpus as it is kept: one word per line.
pub const WORDS: &'static str = "acorn
almond
amber
anchor
anvil
apple
apricot
arrow
aspen
badger
bamboo
banana
barley
basil
beacon
beetle
birch
bison
blossom
boulder
bramble
breeze
bridge
bronze
brook
buffalo
butter
cactus
candle
canyon
carrot
castle
cedar
cherry
chestnut
cinder
clover
cobalt
comet
copper
coral
cotton
coyote
cricket
crystal
cypress
daisy
dolphin
dragon
eagle
ember
falcon
feather
fennel
fern
finch
flint
forest
fossil
garnet
ginger
glacier
granite
grape
gravel
harbor
hazel
heron
hickory
honey
iris
island
ivory
jasmine
juniper
kettle
lagoon
lantern
laurel
lemon
lichen
lilac
linen
lizard
lotus
magnet
mango
maple
marble
meadow
melon
mint
mirror
moss
mulberry
nectar
nutmeg
oak
oasis
olive
onyx
orchid
otter
oyster
paddle
panther
papaya
parsley
peach
pebble
pepper
pine
plum
poppy
prairie
quartz
quill
rabbit
raven
reef
ribbon
river
robin
saffron
sage
salmon
sparrow
spruce
stone
sumac
sunset
thistle
thunder
thyme
timber
tulip
tundra
turtle
valley
velvet
violet
walnut
willow
zephyr
";

/// The texts of a list of string slices, in order.
pub open spec fn texts<'a>(words: Seq<&'a str>) -> Seq<Seq<char>> {
    Seq::new(words.len(), |i: int| words[i]@)
}

/// Where the first line of `text` ends: the position of its first line feed,
/// or its length where it holds none.
pub open spec fn line_end(text: Seq<char>) -> int
    decreases text.len(),
{
    if text.len() == 0 || text[0] == '\n' {
        0
    } else {
        1 + line_end(text.skip(1))
    }
}

/// `line` without the carriage return that it may end in.
pub open spec fn without_cr(line: Seq<char>) -> Seq<char> {
    if line.len() > 0 && line.last() == '\r' {
        line.drop_last()
    } else {
        line
    }
}

/// The lines of `text`. A line ends at a line feed, which is not part of it,
/// nor is a carriage return just before that line feed. What follows the last
/// line feed is a line of its own unless it is empty, and is kept whole.
pub open spec fn lines_of(text: Seq<char>) -> Seq<Seq<char>>
    decreases text.len(),
{
    let end = line_end(text);
    if text.len() == 0 {
        Seq::empty()
    } else if 0 <= end < text.len() {
        seq![without_cr(text.take(end))] + lines_of(text.skip(end + 1))
    } else {
        seq![text]
    }
}

/// `line_end` is the one position that no line feed precedes and that holds
/// a line feed or ends the text.
pub proof fn lemma_line_end(text: Seq<char>, end: int)
    requires
        0 <= end <= text.len(),
        forall|k: int| 0 <= k < end ==> text[k] != '\n',
        end < text.len() ==> text[end] == '\n',
    ensures
        line_end(text) == end,
    decreases end,
{
    if end > 0 {
        lemma_line_end(text.skip(1), end - 1);
    }
}

/// Splits `text` into its lines.
pub fn lines<'a>(text: &'a str) -> (out: Vec<&'a str>)
    ensures
        texts(out@) == lines_of(text@),
{
    let len = text.unicode_len();
    let mut out: Vec<&'a str> = Vec::new();
    let mut start: usize = 0;
    let mut i: usize = 0;
    let mut after_cr = false;
    assert(text@.skip(0) == text@);
    for c in it: text.chars()
        invariant
            it.seq() == text@,
            len == text@.len(),
            i == it.index(),
            start <= i,
            after_cr <==> i > start && text@[i - 1] == '\r',
            forall|k: int| start <= k < i ==> text@[k] != '\n',
            lines_of(text@) == texts(out@) + lines_of(text@.skip(start as int)),
    {
        if c == '\n' {
            let stop = if after_cr { i - 1 } else { i };
            let line = text.substring_char(start, stop);
            proof {
                let rest = text@.skip(start as int);
                lemma_line_end(rest, i - start);
                assert(rest.take(i - start) == text@.subrange(start as int, i as int));
                assert(rest.skip(i - start + 1) == text@.skip(i + 1));
                assert(without_cr(text@.subrange(start as int, i as int)) == line@);
                assert(texts(out@.push(line)) == texts(out@) + seq![line@]);
            }
            out.push(line);
            start = i + 1;
        }
        after_cr = c == '\r';
        i += 1;
    }
    if start < len {
        let line = text.substring_char(start, len);
        proof {
            let rest = text@.skip(start as int);
            lemma_line_end(rest, rest.len() as int);
            assert(rest == line@);
            assert(texts(out@.push(line)) == texts(out@) + seq![line@]);
        }
        out.push(line);
    }
    out
}

/// The words of the corpus: the lines of [`WORDS`], in order.
pub fn wordlist() -> (words: Vec<&'static str>)
    ensures
        texts(words@) == lines_of(WORDS@),
{
    lines(WORDS)
}

} // verus!
