//! Turning handwriting samples into a training dataset: the label space, and for each sample the
//! bytes of its image, its features and its label.
//!
//! Samples are taken one at a time, so a corpus of any size costs the memory of one sample.
use crate::alphabet::insert_new;
use crate::classify::online::{online_features, ONLINE_CHANNELS, ONLINE_POINTS};
use crate::classify::raster::{global_features, rasterize, NUM_FEATURES};
use crate::classify::Labels;
use crate::detexify::{parse, parse_line, LoadError, Sample, SampleView};
use crate::elementary::Fn2;
use crate::float::{num, F32};
use crate::format::put_u32;
use crate::line::BITMAP_SIZE;
use crate::stroke::{Point, Stroke, ONE, ZERO};
use crate::text::{append, chars_of, push_decimal, same_text, text_of, texts, trim};
use vstd::bytes::*;
use vstd::prelude::*;

verus! {

/// 255.
pub const FULL: u32 = 0x437f_0000;

// ---------------------------------------------------------------------------------------------
// Reading
// ---------------------------------------------------------------------------------------------
/// A corpus that is read line by line. It is known to be one JSON record per line once a line has
/// given a sample; otherwise it is read again as one document.
#[derive(Debug)]
pub struct Source {
    pub any: bool,
}

/// The sample on a line. A blank line has none.
pub open spec fn sample_on(line: Seq<char>) -> Option<SampleView> {
    if crate::text::trimmed(line).len() == 0 {
        None
    } else {
        crate::detexify::sample_in(line)
    }
}

impl Source {
    /// Nothing has been read.
    pub fn new() -> (r: Self)
        ensures
            !r.any,
    {
        Source { any: false }
    }

    /// Read a line.
    pub fn line(&mut self, line: &str) -> (r: Option<Sample>)
        ensures
            crate::detexify::sample_option(r) == sample_on(line@),
            final(self).any == (old(self).any || r is Some),
    {
        if trim(&chars_of(line)).len() == 0 {
            return None;
        }
        let sample = parse_line(line);
        if sample.is_some() {
            self.any = true;
        }
        sample
    }

    /// What is still to be read of a corpus when all its lines have been: nothing if there were
    /// samples on them, else the samples of the whole text.
    pub fn rest(&self, text: &str) -> (r: Result<Vec<Sample>, LoadError>)
        ensures
            self.any ==> (r matches Ok(samples) && samples.len() == 0),
            !self.any ==> match r {
                Ok(samples) => samples.len() > 0 && crate::detexify::sample_views(samples@)
                    == crate::detexify::export_of(text@),
                Err(_) => crate::detexify::export_of(text@).len() == 0,
            },
    {
        if self.any {
            Ok(Vec::new())
        } else {
            parse(text)
        }
    }
}

// ---------------------------------------------------------------------------------------------
// The label space
// ---------------------------------------------------------------------------------------------
/// The class names that samples have, in alphabetical order, each once.
#[derive(Debug)]
pub struct Vocabulary {
    pub names: Vec<Vec<char>>,
}

impl View for Vocabulary {
    type V = Seq<Seq<char>>;

    open spec fn view(&self) -> Seq<Seq<char>> {
        crate::text::line_views(self.names@)
    }
}

impl Vocabulary {
    /// Are the names in alphabetical order, each once?
    pub open spec fn wf(&self) -> bool {
        crate::alphabet::in_order(self@) && self@.no_duplicates()
    }

    /// No names.
    pub fn new() -> (r: Self)
        ensures
            r.wf(),
            r@ == Seq::<Seq<char>>::empty(),
    {
        let r = Vocabulary { names: Vec::new() };
        assert(r@ =~= Seq::<Seq<char>>::empty());
        r
    }

    /// Take a sample's class in.
    pub fn add(&mut self, class: &str)
        requires
            old(self).wf(),
        ensures
            final(self).wf(),
            final(self)@.to_set() == old(self)@.to_set().insert(class@),
    {
        insert_new(&mut self.names, chars_of(class));
    }

    /// The names.
    pub fn classes(&self) -> (r: Vec<String>)
        ensures
            crate::text::text_views(r@) == self@,
    {
        texts(&self.names)
    }
}

/// The class names in a text, one per line, without the blank ones.
pub open spec fn classes_in(text: Seq<char>) -> Seq<Seq<char>> {
    let rows = crate::text::split(text, '\n');
    crate::classify::labels_in(rows, rows.len())
}

/// The class names in a text, if there are any.
pub fn class_list(text: &str) -> (r: Option<Vec<String>>)
    ensures
        match r {
            Some(classes) => classes.len() > 0 && crate::text::text_views(classes@) == classes_in(
                text@,
            ),
            None => classes_in(text@).len() == 0,
        },
{
    let labels = Labels::from_lines(text);
    assert(crate::text::text_views(labels.names@) =~= labels@);
    if labels.names.len() == 0 {
        None
    } else {
        Some(labels.names)
    }
}

/// The index of a class among the first `n`: the last one, where it stands more than once.
pub open spec fn class_index(classes: Seq<Seq<char>>, class: Seq<char>, n: nat) -> Option<nat>
    decreases n,
{
    if n == 0 {
        None
    } else if classes[n - 1] == class {
        Some((n - 1) as nat)
    } else {
        class_index(classes, class, (n - 1) as nat)
    }
}

/// The index of a class; the last one, where it stands more than once.
pub fn find_class(classes: &Vec<String>, class: &str) -> (r: Option<usize>)
    ensures
        match r {
            Some(i) => i < classes.len() && class_index(
                crate::text::text_views(classes@),
                class@,
                classes@.len(),
            ) == Some(i as nat),
            None => class_index(crate::text::text_views(classes@), class@, classes@.len()) is None,
        },
{
    let ghost views = crate::text::text_views(classes@);
    let mut n: usize = classes.len();
    while n > 0
        invariant
            n <= classes.len(),
            views == crate::text::text_views(classes@),
            class_index(views, class@, classes@.len()) == class_index(views, class@, n as nat),
        decreases n,
    {
        assert(views[n - 1] == classes[n - 1]@);
        if same_text(classes[n - 1].as_str(), class) {
            return Some(n - 1);
        }
        n = n - 1;
    }
    None
}

// ---------------------------------------------------------------------------------------------
// The bytes of a sample
// ---------------------------------------------------------------------------------------------
/// A grey value as a byte.
pub open spec fn grey(v: F32) -> u8 {
    let w = v.clamp(num(ZERO), num(ONE)).times(num(FULL)).round().to_usize();
    if w > 255 {
        255
    } else {
        w as u8
    }
}

/// An image as bytes.
pub open spec fn image_bytes(bitmap: Seq<F32>) -> Seq<u8> {
    Seq::new(bitmap.len(), |i: int| grey(bitmap[i]))
}

/// Numbers as bytes, each in four, the least significant first.
pub open spec fn float_bytes(values: Seq<F32>) -> Seq<u8>
    decreases values.len(),
{
    if values.len() == 0 {
        Seq::empty()
    } else {
        float_bytes(values.drop_last()) + spec_u32_to_le_bytes(values.last().bits)
    }
}

/// What a sample adds to the files of a dataset.
#[derive(Debug)]
pub struct Row {
    pub image: Vec<u8>,
    pub features: Vec<u8>,
    pub online: Vec<u8>,
    pub label: Vec<u8>,
}

/// What a [`Row`] holds.
#[verifier::ext_equal]
pub struct RowView {
    pub image: Seq<u8>,
    pub features: Seq<u8>,
    pub online: Seq<u8>,
    pub label: Seq<u8>,
}

impl View for Row {
    type V = RowView;

    open spec fn view(&self) -> RowView {
        RowView {
            image: self.image@,
            features: self.features@,
            online: self.online@,
            label: self.label@,
        }
    }
}

/// The bytes of a sample's strokes and label.
pub open spec fn row_of(strokes: Seq<Seq<Point>>, label: nat, angle: Fn2) -> RowView {
    RowView {
        image: image_bytes(crate::classify::raster::bitmap_of(strokes, BITMAP_SIZE as int)),
        features: float_bytes(crate::classify::raster::features_of(strokes)),
        online: float_bytes(
            crate::classify::online::online_of(strokes, ONLINE_POINTS as int, angle),
        ),
        label: spec_u32_to_le_bytes(crate::format::count_of(label)),
    }
}

fn to_grey(v: F32) -> (r: u8)
    ensures
        r == grey(v),
{
    let w: usize = v.clamp(num(ZERO), num(ONE)).times(num(FULL)).round().to_usize();
    if w > 255 {
        255
    } else {
        w as u8
    }
}

fn to_image(bitmap: &Vec<F32>) -> (r: Vec<u8>)
    ensures
        r@ == image_bytes(bitmap@),
{
    let mut out: Vec<u8> = Vec::new();
    let mut i: usize = 0;
    while i < bitmap.len()
        invariant
            i <= bitmap.len(),
            out@ == image_bytes(bitmap@).take(i as int),
        decreases bitmap.len() - i,
    {
        out.push(to_grey(bitmap[i]));
        i = i + 1;
        assert(out@ =~= image_bytes(bitmap@).take(i as int));
    }
    assert(image_bytes(bitmap@).take(i as int) =~= image_bytes(bitmap@));
    out
}

fn to_bytes(values: &[F32]) -> (r: Vec<u8>)
    ensures
        r@ == float_bytes(values@),
{
    let mut out: Vec<u8> = Vec::new();
    let mut i: usize = 0;
    assert(out@ =~= float_bytes(values@.take(0)));
    while i < values.len()
        invariant
            i <= values.len(),
            out@ == float_bytes(values@.take(i as int)),
        decreases values.len() - i,
    {
        assert(values@.take(i + 1).drop_last() =~= values@.take(i as int));
        put_u32(&mut out, values[i].bits);
        i = i + 1;
    }
    assert(values@.take(i as int) =~= values@);
    out
}

/// Does the row hold what of a sample takes no arctangent: all but the curvature, which is the last
/// quarter of the online features?
pub open spec fn row_begins(row: RowView, strokes: Seq<Seq<Point>>, label: nat) -> bool {
    let n = ONLINE_POINTS as int;
    let moves = crate::classify::online::moves_of(strokes, n);
    &&& row.image == image_bytes(
        crate::classify::raster::bitmap_of(strokes, BITMAP_SIZE as int),
    )
    &&& row.features == float_bytes(crate::classify::raster::features_of(strokes))
    &&& row.online.len() == 16 * n
    &&& row.online.take(12 * n) == float_bytes(moves)
    &&& row.label == spec_u32_to_le_bytes(crate::format::count_of(label))
}

/// The bytes of the first numbers are the first bytes.
proof fn lemma_float_bytes_take(values: Seq<F32>, k: int)
    requires
        0 <= k <= values.len(),
    ensures
        float_bytes(values).len() == 4 * values.len(),
        float_bytes(values).take(4 * k) == float_bytes(values.take(k)),
    decreases values.len(),
{
    vstd::bytes::lemma_auto_spec_u32_to_from_le_bytes();
    let all = float_bytes(values);
    if k == values.len() {
        if k > 0 {
            lemma_float_bytes_take(values.drop_last(), k - 1);
        }
        assert(values.take(k) =~= values);
        assert(all.take(4 * k) =~= all);
    } else {
        let before = values.drop_last();
        lemma_float_bytes_take(before, k);
        assert(before.take(k) =~= values.take(k));
        assert(all.take(4 * k) =~= float_bytes(before).take(4 * k));
    }
}

fn to_row<A: Fn(F32, F32) -> F32>(strokes: &Vec<Stroke>, label: usize, atan2: &A) -> (r: Row)
    requires
        crate::elementary::callable2(*atan2),
    ensures
        row_begins(r@, crate::stroke::trajectories(strokes@), label as nat),
        forall|h: Fn2| #[trigger]
            crate::elementary::computes2(*atan2, h) ==> r@ == row_of(
                crate::stroke::trajectories(strokes@),
                label as nat,
                h,
            ),
{
    let bitmap = rasterize(strokes.as_slice(), BITMAP_SIZE);
    let features = global_features(strokes.as_slice());
    let online = online_features(strokes.as_slice(), ONLINE_POINTS, atan2);
    proof {
        lemma_float_bytes_take(online@, 3 * ONLINE_POINTS as int);
    }
    let mut label_bytes: Vec<u8> = Vec::new();
    crate::format::put_count(&mut label_bytes, label);
    assert(label_bytes@ =~= spec_u32_to_le_bytes(crate::format::count_of(label as nat)));
    Row {
        image: to_image(&bitmap),
        features: to_bytes(&features),
        online: to_bytes(online.as_slice()),
        label: label_bytes,
    }
}

// ---------------------------------------------------------------------------------------------
// The dataset
// ---------------------------------------------------------------------------------------------
/// A dataset in the making: the label space, how many samples of each class it has, how many in
/// all, and how many were of no class in the label space.
#[derive(Debug)]
pub struct Dataset {
    pub classes: Vec<String>,
    pub seen: Vec<u64>,
    pub n: u64,
    pub dropped: u64,
}

/// What a [`Dataset`] holds.
#[verifier::ext_equal]
pub struct DatasetView {
    pub classes: Seq<Seq<char>>,
    pub seen: Seq<u64>,
    pub n: u64,
    pub dropped: u64,
}

impl View for Dataset {
    type V = DatasetView;

    open spec fn view(&self) -> DatasetView {
        DatasetView {
            classes: crate::text::text_views(self.classes@),
            seen: self.seen@,
            n: self.n,
            dropped: self.dropped,
        }
    }
}

/// The sum of the first `n` numbers.
pub open spec fn total(seen: Seq<u64>, n: nat) -> int
    decreases n,
{
    if n == 0 {
        0
    } else {
        total(seen, (n - 1) as nat) + seen[n - 1]
    }
}

impl DatasetView {
    /// Does every sample count for one class?
    pub open spec fn wf(self) -> bool {
        self.seen.len() == self.classes.len() && total(self.seen, self.seen.len()) == self.n
    }
}

/// The label of a class, if it is in the label space.
pub open spec fn label_for(classes: Seq<Seq<char>>, class: Seq<char>) -> Option<nat> {
    class_index(classes, class, classes.len())
}

/// The dataset with one more sample.
pub open spec fn with_sample(d: DatasetView, class: Seq<char>) -> DatasetView {
    match label_for(d.classes, class) {
        Some(i) => DatasetView {
            seen: d.seen.update(i as int, (d.seen[i as int] + 1) as u64),
            n: (d.n + 1) as u64,
            ..d
        },
        None => DatasetView { dropped: (d.dropped + 1) as u64, ..d },
    }
}

/// How many of the first `n` classes have no sample.
pub open spec fn unseen(seen: Seq<u64>, n: nat) -> nat
    decreases n,
{
    if n == 0 {
        0
    } else {
        unseen(seen, (n - 1) as nat) + if seen[n - 1] == 0 {
            1nat
        } else {
            0nat
        }
    }
}

proof fn lemma_total_bounds(seen: Seq<u64>, n: nat, i: int)
    requires
        n <= seen.len(),
    ensures
        total(seen, n) >= 0,
        0 <= i < n ==> seen[i] <= total(seen, n),
    decreases n,
{
    if n > 0 {
        lemma_total_bounds(seen, (n - 1) as nat, i);
    }
}

proof fn lemma_total_update(seen: Seq<u64>, n: nat, i: int, v: u64)
    requires
        n <= seen.len(),
        0 <= i < seen.len(),
    ensures
        total(seen.update(i, v), n) == total(seen, n) + if i < n {
            v - seen[i]
        } else {
            0
        },
    decreases n,
{
    if n > 0 {
        lemma_total_update(seen, (n - 1) as nat, i, v);
    }
}

proof fn lemma_total_zero(n: nat, seen: Seq<u64>)
    requires
        n <= seen.len(),
        forall|i: int| 0 <= i < seen.len() ==> seen[i] == 0,
    ensures
        total(seen, n) == 0,
    decreases n,
{
    if n > 0 {
        lemma_total_zero((n - 1) as nat, seen);
    }
}

impl Dataset {
    /// A dataset without samples.
    pub fn new(classes: Vec<String>) -> (r: Self)
        ensures
            r@.wf(),
            r@.classes == crate::text::text_views(classes@),
            r@.n == 0,
            r@.dropped == 0,
            r@.seen == Seq::new(classes@.len(), |i: int| 0u64),
    {
        let mut seen: Vec<u64> = Vec::new();
        let mut i: usize = 0;
        while i < classes.len()
            invariant
                i <= classes.len(),
                seen@ == Seq::new(i as nat, |i: int| 0u64),
            decreases classes.len() - i,
        {
            seen.push(0);
            i = i + 1;
            assert(seen@ =~= Seq::new(i as nat, |i: int| 0u64));
        }
        proof {
            lemma_total_zero(seen@.len(), seen@);
        }
        Dataset { classes, seen, n: 0, dropped: 0 }
    }

    /// Take a sample in: the bytes that it adds to the files, or nothing if its class is not in the
    /// label space. `atan2` is the arctangent of `y / x`.
    pub fn add<A: Fn(F32, F32) -> F32>(&mut self, sample: &Sample, atan2: &A) -> (r: Option<Row>)
        requires
            old(self)@.wf(),
            old(self).n < u64::MAX,
            old(self).dropped < u64::MAX,
            crate::elementary::callable2(*atan2),
        ensures
            final(self)@.wf(),
            final(self)@ == with_sample(old(self)@, sample.class@),
            match label_for(old(self)@.classes, sample.class@) {
                Some(label) => {
                    &&& r is Some
                    // whatever the function computes
                    &&& row_begins(r->0@, sample@.strokes, label)
                    &&& forall|h: Fn2| #[trigger]
                        crate::elementary::computes2(*atan2, h) ==> r->0@ == row_of(
                            sample@.strokes,
                            label,
                            h,
                        )
                },
                None => r is None,
            },
    {
        let ghost before = self@;
        match find_class(&self.classes, sample.class.as_str()) {
            None => {
                self.dropped = self.dropped + 1;
                None
            },
            Some(i) => {
                proof {
                    lemma_total_bounds(self.seen@, self.seen@.len(), i as int);
                    lemma_total_update(
                        self.seen@,
                        self.seen@.len(),
                        i as int,
                        (self.seen[i as int] + 1) as u64,
                    );
                }
                let count: u64 = self.seen[i] + 1;
                self.seen.set(i, count);
                self.n = self.n + 1;
                assert(self@ =~= with_sample(before, sample.class@));
                Some(to_row(&sample.strokes, i, atan2))
            },
        }
    }

    /// How many classes have no sample.
    pub fn empty_classes(&self) -> (r: usize)
        ensures
            r == unseen(self.seen@, self.seen@.len()),
    {
        let mut r: usize = 0;
        let mut i: usize = 0;
        while i < self.seen.len()
            invariant
                i <= self.seen.len(),
                r <= i,
                r == unseen(self.seen@, i as nat),
            decreases self.seen.len() - i,
        {
            if self.seen[i] == 0 {
                r = r + 1;
            }
            i = i + 1;
        }
        r
    }

    /// The list of classes, one per line.
    pub fn classes_text(&self) -> (r: String)
        ensures
            r@ == rows_text(self@.classes, self@.classes.len()),
    {
        let ghost views = self@.classes;
        let mut out: Vec<char> = Vec::new();
        if self.classes.len() == 0 {
            append(&mut out, "\n");
            assert(out@ =~= rows_text(views, 0));
        } else {
            let mut i: usize = 0;
            while i < self.classes.len()
                invariant
                    i <= self.classes.len(),
                    views == crate::text::text_views(self.classes@),
                    out@ == if i == 0 {
                        Seq::<char>::empty()
                    } else {
                        rows_text(views, i as nat)
                    },
                decreases self.classes.len() - i,
            {
                assert(views[i as int] == self.classes[i as int]@);
                append(&mut out, self.classes[i].as_str());
                append(&mut out, "\n");
                i = i + 1;
                assert(out@ =~= rows_text(views, i as nat));
            }
        }
        text_of(&out)
    }

    /// The description of the dataset that stands beside its files.
    pub fn meta_json(&self) -> (r: String)
        ensures
            r@ == meta_text(self.n as nat, self.classes@.len()),
    {
        let mut out: Vec<char> = Vec::new();
        append(&mut out, "{\"n\": ");
        push_decimal(&mut out, self.n);
        append(&mut out, ", \"size\": ");
        push_decimal(&mut out, BITMAP_SIZE as u64);
        append(&mut out, ", \"num_features\": ");
        push_decimal(&mut out, NUM_FEATURES as u64);
        append(&mut out, ", \"num_classes\": ");
        push_decimal(&mut out, self.classes.len() as u64);
        append(&mut out, ", \"online_len\": ");
        push_decimal(&mut out, (ONLINE_CHANNELS * ONLINE_POINTS) as u64);
        append(&mut out, "}\n");
        assert(out@ =~= meta_text(self.n as nat, self.classes@.len()));
        text_of(&out)
    }
}

/// The first `n` names, each on a line of its own; without names, one empty line.
pub open spec fn rows_text(names: Seq<Seq<char>>, n: nat) -> Seq<char>
    decreases n,
{
    if n == 0 {
        "\n"@
    } else if n == 1 {
        names[0] + "\n"@
    } else {
        rows_text(names, (n - 1) as nat) + names[n - 1] + "\n"@
    }
}

/// The description of a dataset.
pub open spec fn meta_text(n: nat, classes: nat) -> Seq<char> {
    "{\"n\": "@ + crate::text::decimal(n) + ", \"size\": "@ + crate::text::decimal(
        BITMAP_SIZE as nat,
    ) + ", \"num_features\": "@ + crate::text::decimal(NUM_FEATURES as nat)
        + ", \"num_classes\": "@ + crate::text::decimal(classes) + ", \"online_len\": "@
        + crate::text::decimal((ONLINE_CHANNELS * ONLINE_POINTS) as nat) + "}\n"@
}

// ---------------------------------------------------------------------------------------------
// Laws
// ---------------------------------------------------------------------------------------------
/// Two datasets with the same label space give a class the same label, so their files can be put
/// one behind the other: the label does not depend on the samples.
pub proof fn law_labels_depend_on_the_label_space_alone(
    d: DatasetView,
    class: Seq<char>,
    other: Seq<char>,
)
    ensures
        with_sample(d, class).classes == d.classes,
        label_for(with_sample(d, class).classes, other) == label_for(d.classes, other),
{
}

/// Every sample is either in the dataset or among the dropped ones, and only those of a class in
/// the label space are in it.
pub proof fn law_no_sample_is_lost(d: DatasetView, class: Seq<char>)
    requires
        d.n < u64::MAX,
        d.dropped < u64::MAX,
    ensures
        with_sample(d, class).n + with_sample(d, class).dropped == d.n + d.dropped + 1,
        with_sample(d, class).n == d.n + 1 <==> d.classes.contains(class),
{
    lemma_class_index(d.classes, class, d.classes.len());
    if label_for(d.classes, class) is None && d.classes.contains(class) {
        let i = choose|i: int| 0 <= i < d.classes.len() && d.classes[i] == class;
        assert(d.classes[i] != class);
    }
}

proof fn lemma_class_index(classes: Seq<Seq<char>>, class: Seq<char>, n: nat)
    requires
        n <= classes.len(),
    ensures
        match class_index(classes, class, n) {
            Some(i) => i < n && classes[i as int] == class && forall|k: int|
                i < k < n ==> #[trigger] classes[k] != class,
            None => forall|k: int| 0 <= k < n ==> #[trigger] classes[k] != class,
        },
    decreases n,
{
    if n > 0 {
        lemma_class_index(classes, class, (n - 1) as nat);
    }
}

/// In a label space without repetitions, the label of a class is its line.
pub proof fn law_a_label_is_the_line_of_its_class(classes: Seq<Seq<char>>, i: int)
    requires
        classes.no_duplicates(),
        0 <= i < classes.len(),
    ensures
        label_for(classes, classes[i]) == Some(i as nat),
{
    lemma_class_index(classes, classes[i], classes.len());
}

/// A pixel is written as the whole number nearest to 255 times its value: blank is 0, and full is 255.
pub proof fn law_a_pixel_is_written_as_a_byte(v: F32)
    requires
        num(0).le(v) && v.le(num(0x3f80_0000)),
    ensures
        crate::classify::linear::nearest_whole(grey(v) as int, v.times(num(0x437f_0000))),
{
    let full = num(0x437f_0000);
    let one = num(0x3f80_0000);
    let u = crate::float::arith::one_units();
    vstd::arithmetic::power2::lemma_pow2_pos(149);
    vstd::arithmetic::power2::lemma2_to64();
    reveal(F32::le_spec);
    reveal(F32::lt_spec);
    reveal(F32::clamp_spec);
    reveal(crate::float::convert::truncated);
    let c = v.clamp(num(0), one);
    assert(c == v || c.magnitude() == 0 && v.magnitude() == 0);
    lemma_full();
    let p = v.times(full);
    assert(p.finite() && p.size() <= 255 * u && (v.magnitude() == 0 ==> p.magnitude() == 0)) by {
        reveal(F32::times_spec);
        crate::float::monotone::lemma_power(0x3f80_0000, 0);
        crate::float::bound::lemma_size_ordered(v.magnitude(), 0x3f80_0000);
        let n = v.size() * full.size();
        assert(n <= full.size() * u) by (nonlinear_arith)
            requires
                n == v.size() * full.size(),
                v.size() <= u,
        ;
        crate::float::monotone::lemma_nearest_multiple(0x437f_0000, u);
        crate::float::monotone::lemma_nearest_monotone(n, full.size() * u, u);
        crate::float::monotone::lemma_nearest(n, u);
        crate::float::bound::lemma_size_ordered(crate::float::nearest(n, u), 0x437f_0000);
        if v.magnitude() == 0 {
            assert(crate::float::mag(0) == 0);
            assert(0 * full.size() == 0) by (nonlinear_arith);
            crate::float::lemma_nearest_zero(u);
        }
    }
    crate::classify::linear::lemma_rounded(p);
    crate::classify::linear::lemma_size_units(p);
    let r = p.round();
    let n = crate::float::convert::whole_part(r);
    assert(n <= 255) by (nonlinear_arith)
        requires
            2 * (n * u - p.size()) <= u,
            p.size() <= 255 * u,
            u > 0,
    ;
    if v.magnitude() == 0 {
        assert(crate::float::mag(0) == 0);
        assert(n == 0) by (nonlinear_arith)
            requires
                2 * (n * u - p.size()) <= u,
                p.size() == 0,
                u > 0,
        ;
        let q = c.times(full);
        assert(q.magnitude() == 0) by {
            crate::segment::touch::lemma_nothing_times(c, full);
        }
        crate::classify::linear::lemma_rounded(q);
        let m = crate::float::convert::whole_part(q.round());
        assert(m == 0) by (nonlinear_arith)
            requires
                2 * (m * u - q.size()) <= u,
                q.size() == 0,
                u > 0,
        ;
        assert(0 * u == 0);
    } else {
        assert(!v.negative());
        assert(!p.negative()) by {
            reveal(F32::times_spec);
            crate::float::monotone::lemma_nearest(v.size() * full.size(), u);
        }
    }
}

/// What the number 255 is made of.
proof fn lemma_full()
    ensures
        num(0x437f_0000).size() == 255 * crate::float::arith::one_units(),
{
    vstd::arithmetic::power2::lemma2_to64();
    let h = crate::float::HIDDEN as int;
    vstd::arithmetic::div_mod::lemma_fundamental_div_mod_converse(0x437f_0000, h, 134, 0x7f_0000);
    vstd::arithmetic::power2::lemma_pow2_adds(133, 16);
    let p = vstd::arithmetic::power2::pow2(133);
    assert(num(0x437f_0000).size() == 0xff_0000 * p);
    assert(0xff_0000 * p == 255 * (p * 0x1_0000)) by (nonlinear_arith);
}

} // verus!
