//! Single kanji by on-yomi: JP 常用漢字 ∩ Simplified-CN hanzi, every
//! entry's codepoint identical in both writing systems. Readings are
//! Hepburn romaji, ASCII lowercase, long vowels doubled (`kou`, `juu`).

use vstd::prelude::*;

use crate::text::str_eq;

verus! {

/// A kanji and its on-yomi readings, primary first.
#[derive(Copy, Clone, Debug)]
pub struct KanjiEntry {
    pub kanji: char,
    pub readings: &'static [&'static str],
}

proof fn lemma_readings_view(r: &'static [&'static str], want: Seq<Seq<char>>)
    requires
        r@.len() == want.len(),
        forall|i: int| 0 <= i < r@.len() ==> r@[i]@ == want[i],
    ensures
        r@.map_values(|x: &'static str| x@) == want,
{
    assert(r@.map_values(|x: &'static str| x@) =~= want);
}

/// An entry as (kanji, readings).
pub open spec fn kanji_entry_view(e: KanjiEntry) -> (char, Seq<Seq<char>>) {
    (e.kanji, e.readings@.map_values(|r: &'static str| r@))
}

/// Entries as (kanji, readings).
pub open spec fn kanji_view(s: Seq<KanjiEntry>) -> Seq<(char, Seq<Seq<char>>)> {
    s.map_values(|e: KanjiEntry| kanji_entry_view(e))
}

/// Rows 0.. of the table.
pub open spec fn kanji_rows_0() -> Seq<(char, Seq<Seq<char>>)> {
    seq![
        ('一', seq!["ichi"@, "itsu"@]),
        ('二', seq!["ni"@]),
        ('三', seq!["san"@]),
        ('四', seq!["shi"@]),
        ('五', seq!["go"@]),
        ('六', seq!["roku"@, "riku"@]),
        ('七', seq!["shichi"@]),
        ('八', seq!["hachi"@]),
        ('九', seq!["kyuu"@, "ku"@]),
        ('十', seq!["juu"@, "jitsu"@]),
        ('百', seq!["hyaku"@]),
        ('千', seq!["sen"@]),
        ('万', seq!["man"@, "ban"@]),
        ('零', seq!["rei"@]),
        ('日', seq!["nichi"@, "jitsu"@]),
        ('月', seq!["getsu"@, "gatsu"@]),
        ('火', seq!["ka"@]),
        ('水', seq!["sui"@]),
        ('木', seq!["boku"@, "moku"@]),
        ('金', seq!["kin"@, "kon"@]),
    ]
}

fn kanji_part_0() -> (r: Vec<KanjiEntry>)
    ensures
        kanji_view(r@) == kanji_rows_0(),
{
    let mut w: Vec<KanjiEntry> = Vec::new();
    w.push(KanjiEntry { kanji: '一', readings: &["ichi", "itsu"] });
    proof { lemma_readings_view(w@.last().readings, seq!["ichi"@, "itsu"@]); }
    w.push(KanjiEntry { kanji: '二', readings: &["ni"] });
    proof { lemma_readings_view(w@.last().readings, seq!["ni"@]); }
    w.push(KanjiEntry { kanji: '三', readings: &["san"] });
    proof { lemma_readings_view(w@.last().readings, seq!["san"@]); }
    w.push(KanjiEntry { kanji: '四', readings: &["shi"] });
    proof { lemma_readings_view(w@.last().readings, seq!["shi"@]); }
    w.push(KanjiEntry { kanji: '五', readings: &["go"] });
    proof { lemma_readings_view(w@.last().readings, seq!["go"@]); }
    w.push(KanjiEntry { kanji: '六', readings: &["roku", "riku"] });
    proof { lemma_readings_view(w@.last().readings, seq!["roku"@, "riku"@]); }
    w.push(KanjiEntry { kanji: '七', readings: &["shichi"] });
    proof { lemma_readings_view(w@.last().readings, seq!["shichi"@]); }
    w.push(KanjiEntry { kanji: '八', readings: &["hachi"] });
    proof { lemma_readings_view(w@.last().readings, seq!["hachi"@]); }
    w.push(KanjiEntry { kanji: '九', readings: &["kyuu", "ku"] });
    proof { lemma_readings_view(w@.last().readings, seq!["kyuu"@, "ku"@]); }
    w.push(KanjiEntry { kanji: '十', readings: &["juu", "jitsu"] });
    proof { lemma_readings_view(w@.last().readings, seq!["juu"@, "jitsu"@]); }
    w.push(KanjiEntry { kanji: '百', readings: &["hyaku"] });
    proof { lemma_readings_view(w@.last().readings, seq!["hyaku"@]); }
    w.push(KanjiEntry { kanji: '千', readings: &["sen"] });
    proof { lemma_readings_view(w@.last().readings, seq!["sen"@]); }
    w.push(KanjiEntry { kanji: '万', readings: &["man", "ban"] });
    proof { lemma_readings_view(w@.last().readings, seq!["man"@, "ban"@]); }
    w.push(KanjiEntry { kanji: '零', readings: &["rei"] });
    proof { lemma_readings_view(w@.last().readings, seq!["rei"@]); }
    w.push(KanjiEntry { kanji: '日', readings: &["nichi", "jitsu"] });
    proof { lemma_readings_view(w@.last().readings, seq!["nichi"@, "jitsu"@]); }
    w.push(KanjiEntry { kanji: '月', readings: &["getsu", "gatsu"] });
    proof { lemma_readings_view(w@.last().readings, seq!["getsu"@, "gatsu"@]); }
    w.push(KanjiEntry { kanji: '火', readings: &["ka"] });
    proof { lemma_readings_view(w@.last().readings, seq!["ka"@]); }
    w.push(KanjiEntry { kanji: '水', readings: &["sui"] });
    proof { lemma_readings_view(w@.last().readings, seq!["sui"@]); }
    w.push(KanjiEntry { kanji: '木', readings: &["boku", "moku"] });
    proof { lemma_readings_view(w@.last().readings, seq!["boku"@, "moku"@]); }
    w.push(KanjiEntry { kanji: '金', readings: &["kin", "kon"] });
    proof { lemma_readings_view(w@.last().readings, seq!["kin"@, "kon"@]); }
    assert(kanji_view(w@) =~= kanji_rows_0());
    w
}

/// Rows 20.. of the table.
pub open spec fn kanji_rows_1() -> Seq<(char, Seq<Seq<char>>)> {
    seq![
        ('土', seq!["do"@, "to"@]),
        ('山', seq!["san"@, "zan"@, "yama"@]),
        ('川', seq!["sen"@, "kawa"@]),
        ('田', seq!["den"@, "ta"@]),
        ('天', seq!["ten"@, "ame"@]),
        ('地', seq!["chi"@, "ji"@]),
        ('海', seq!["kai"@, "umi"@]),
        ('空', seq!["kuu"@, "sora"@]),
        ('雨', seq!["u"@, "ame"@]),
        ('雪', seq!["setsu"@, "yuki"@]),
        ('林', seq!["rin"@, "hayashi"@]),
        ('森', seq!["shin"@, "mori"@]),
        ('花', seq!["ka"@, "hana"@]),
        ('草', seq!["sou"@, "kusa"@]),
        ('石', seq!["seki"@, "shaku"@, "koku"@]),
        ('上', seq!["jou"@, "shou"@]),
        ('下', seq!["ka"@, "ge"@]),
        ('中', seq!["chuu"@]),
        ('内', seq!["nai"@, "dai"@]),
        ('外', seq!["gai"@, "ge"@]),
    ]
}

fn kanji_part_1() -> (r: Vec<KanjiEntry>)
    ensures
        kanji_view(r@) == kanji_rows_1(),
{
    let mut w: Vec<KanjiEntry> = Vec::new();
    w.push(KanjiEntry { kanji: '土', readings: &["do", "to"] });
    proof { lemma_readings_view(w@.last().readings, seq!["do"@, "to"@]); }
    w.push(KanjiEntry { kanji: '山', readings: &["san", "zan", "yama"] });
    proof { lemma_readings_view(w@.last().readings, seq!["san"@, "zan"@, "yama"@]); }
    w.push(KanjiEntry { kanji: '川', readings: &["sen", "kawa"] });
    proof { lemma_readings_view(w@.last().readings, seq!["sen"@, "kawa"@]); }
    w.push(KanjiEntry { kanji: '田', readings: &["den", "ta"] });
    proof { lemma_readings_view(w@.last().readings, seq!["den"@, "ta"@]); }
    w.push(KanjiEntry { kanji: '天', readings: &["ten", "ame"] });
    proof { lemma_readings_view(w@.last().readings, seq!["ten"@, "ame"@]); }
    w.push(KanjiEntry { kanji: '地', readings: &["chi", "ji"] });
    proof { lemma_readings_view(w@.last().readings, seq!["chi"@, "ji"@]); }
    w.push(KanjiEntry { kanji: '海', readings: &["kai", "umi"] });
    proof { lemma_readings_view(w@.last().readings, seq!["kai"@, "umi"@]); }
    w.push(KanjiEntry { kanji: '空', readings: &["kuu", "sora"] });
    proof { lemma_readings_view(w@.last().readings, seq!["kuu"@, "sora"@]); }
    w.push(KanjiEntry { kanji: '雨', readings: &["u", "ame"] });
    proof { lemma_readings_view(w@.last().readings, seq!["u"@, "ame"@]); }
    w.push(KanjiEntry { kanji: '雪', readings: &["setsu", "yuki"] });
    proof { lemma_readings_view(w@.last().readings, seq!["setsu"@, "yuki"@]); }
    w.push(KanjiEntry { kanji: '林', readings: &["rin", "hayashi"] });
    proof { lemma_readings_view(w@.last().readings, seq!["rin"@, "hayashi"@]); }
    w.push(KanjiEntry { kanji: '森', readings: &["shin", "mori"] });
    proof { lemma_readings_view(w@.last().readings, seq!["shin"@, "mori"@]); }
    w.push(KanjiEntry { kanji: '花', readings: &["ka", "hana"] });
    proof { lemma_readings_view(w@.last().readings, seq!["ka"@, "hana"@]); }
    w.push(KanjiEntry { kanji: '草', readings: &["sou", "kusa"] });
    proof { lemma_readings_view(w@.last().readings, seq!["sou"@, "kusa"@]); }
    w.push(KanjiEntry { kanji: '石', readings: &["seki", "shaku", "koku"] });
    proof { lemma_readings_view(w@.last().readings, seq!["seki"@, "shaku"@, "koku"@]); }
    w.push(KanjiEntry { kanji: '上', readings: &["jou", "shou"] });
    proof { lemma_readings_view(w@.last().readings, seq!["jou"@, "shou"@]); }
    w.push(KanjiEntry { kanji: '下', readings: &["ka", "ge"] });
    proof { lemma_readings_view(w@.last().readings, seq!["ka"@, "ge"@]); }
    w.push(KanjiEntry { kanji: '中', readings: &["chuu"] });
    proof { lemma_readings_view(w@.last().readings, seq!["chuu"@]); }
    w.push(KanjiEntry { kanji: '内', readings: &["nai", "dai"] });
    proof { lemma_readings_view(w@.last().readings, seq!["nai"@, "dai"@]); }
    w.push(KanjiEntry { kanji: '外', readings: &["gai", "ge"] });
    proof { lemma_readings_view(w@.last().readings, seq!["gai"@, "ge"@]); }
    assert(kanji_view(w@) =~= kanji_rows_1());
    w
}

/// Rows 40.. of the table.
pub open spec fn kanji_rows_2() -> Seq<(char, Seq<Seq<char>>)> {
    seq![
        ('前', seq!["zen"@]),
        ('左', seq!["sa"@]),
        ('右', seq!["u"@, "yuu"@]),
        ('南', seq!["nan"@]),
        ('北', seq!["hoku"@]),
        ('西', seq!["sei"@, "sai"@]),
        ('京', seq!["kyou"@, "kei"@]),
        ('大', seq!["dai"@, "tai"@]),
        ('小', seq!["shou"@]),
        ('多', seq!["ta"@]),
        ('少', seq!["shou"@]),
        ('高', seq!["kou"@]),
        ('人', seq!["jin"@, "nin"@]),
        ('子', seq!["shi"@, "su"@]),
        ('女', seq!["jo"@, "nyo"@, "nyou"@]),
        ('男', seq!["dan"@, "nan"@]),
        ('父', seq!["fu"@]),
        ('母', seq!["bo"@]),
        ('兄', seq!["kei"@, "kyou"@]),
        ('弟', seq!["tei"@, "dai"@]),
    ]
}

fn kanji_part_2() -> (r: Vec<KanjiEntry>)
    ensures
        kanji_view(r@) == kanji_rows_2(),
{
    let mut w: Vec<KanjiEntry> = Vec::new();
    w.push(KanjiEntry { kanji: '前', readings: &["zen"] });
    proof { lemma_readings_view(w@.last().readings, seq!["zen"@]); }
    w.push(KanjiEntry { kanji: '左', readings: &["sa"] });
    proof { lemma_readings_view(w@.last().readings, seq!["sa"@]); }
    w.push(KanjiEntry { kanji: '右', readings: &["u", "yuu"] });
    proof { lemma_readings_view(w@.last().readings, seq!["u"@, "yuu"@]); }
    w.push(KanjiEntry { kanji: '南', readings: &["nan"] });
    proof { lemma_readings_view(w@.last().readings, seq!["nan"@]); }
    w.push(KanjiEntry { kanji: '北', readings: &["hoku"] });
    proof { lemma_readings_view(w@.last().readings, seq!["hoku"@]); }
    w.push(KanjiEntry { kanji: '西', readings: &["sei", "sai"] });
    proof { lemma_readings_view(w@.last().readings, seq!["sei"@, "sai"@]); }
    w.push(KanjiEntry { kanji: '京', readings: &["kyou", "kei"] });
    proof { lemma_readings_view(w@.last().readings, seq!["kyou"@, "kei"@]); }
    w.push(KanjiEntry { kanji: '大', readings: &["dai", "tai"] });
    proof { lemma_readings_view(w@.last().readings, seq!["dai"@, "tai"@]); }
    w.push(KanjiEntry { kanji: '小', readings: &["shou"] });
    proof { lemma_readings_view(w@.last().readings, seq!["shou"@]); }
    w.push(KanjiEntry { kanji: '多', readings: &["ta"] });
    proof { lemma_readings_view(w@.last().readings, seq!["ta"@]); }
    w.push(KanjiEntry { kanji: '少', readings: &["shou"] });
    proof { lemma_readings_view(w@.last().readings, seq!["shou"@]); }
    w.push(KanjiEntry { kanji: '高', readings: &["kou"] });
    proof { lemma_readings_view(w@.last().readings, seq!["kou"@]); }
    w.push(KanjiEntry { kanji: '人', readings: &["jin", "nin"] });
    proof { lemma_readings_view(w@.last().readings, seq!["jin"@, "nin"@]); }
    w.push(KanjiEntry { kanji: '子', readings: &["shi", "su"] });
    proof { lemma_readings_view(w@.last().readings, seq!["shi"@, "su"@]); }
    w.push(KanjiEntry { kanji: '女', readings: &["jo", "nyo", "nyou"] });
    proof { lemma_readings_view(w@.last().readings, seq!["jo"@, "nyo"@, "nyou"@]); }
    w.push(KanjiEntry { kanji: '男', readings: &["dan", "nan"] });
    proof { lemma_readings_view(w@.last().readings, seq!["dan"@, "nan"@]); }
    w.push(KanjiEntry { kanji: '父', readings: &["fu"] });
    proof { lemma_readings_view(w@.last().readings, seq!["fu"@]); }
    w.push(KanjiEntry { kanji: '母', readings: &["bo"] });
    proof { lemma_readings_view(w@.last().readings, seq!["bo"@]); }
    w.push(KanjiEntry { kanji: '兄', readings: &["kei", "kyou"] });
    proof { lemma_readings_view(w@.last().readings, seq!["kei"@, "kyou"@]); }
    w.push(KanjiEntry { kanji: '弟', readings: &["tei", "dai"] });
    proof { lemma_readings_view(w@.last().readings, seq!["tei"@, "dai"@]); }
    assert(kanji_view(w@) =~= kanji_rows_2());
    w
}

/// Rows 60.. of the table.
pub open spec fn kanji_rows_3() -> Seq<(char, Seq<Seq<char>>)> {
    seq![
        ('友', seq!["yuu"@]),
        ('王', seq!["ou"@]),
        ('民', seq!["min"@]),
        ('公', seq!["kou"@, "ku"@]),
        ('主', seq!["shu"@]),
        ('私', seq!["shi"@, "watashi"@, "watakushi"@]),
        ('自', seq!["ji"@, "shi"@]),
        ('年', seq!["nen"@]),
        ('早', seq!["sou"@, "sa"@]),
        ('夕', seq!["seki"@]),
        ('朝', seq!["chou"@]),
        ('夜', seq!["ya"@]),
        ('春', seq!["shun"@]),
        ('夏', seq!["ka"@, "ge"@]),
        ('秋', seq!["shuu"@]),
        ('冬', seq!["tou"@]),
        ('古', seq!["ko"@]),
        ('今', seq!["kon"@, "kin"@]),
        ('新', seq!["shin"@]),
        ('明', seq!["mei"@, "myou"@]),
    ]
}

fn kanji_part_3() -> (r: Vec<KanjiEntry>)
    ensures
        kanji_view(r@) == kanji_rows_3(),
{
    let mut w: Vec<KanjiEntry> = Vec::new();
    w.push(KanjiEntry { kanji: '友', readings: &["yuu"] });
    proof { lemma_readings_view(w@.last().readings, seq!["yuu"@]); }
    w.push(KanjiEntry { kanji: '王', readings: &["ou"] });
    proof { lemma_readings_view(w@.last().readings, seq!["ou"@]); }
    w.push(KanjiEntry { kanji: '民', readings: &["min"] });
    proof { lemma_readings_view(w@.last().readings, seq!["min"@]); }
    w.push(KanjiEntry { kanji: '公', readings: &["kou", "ku"] });
    proof { lemma_readings_view(w@.last().readings, seq!["kou"@, "ku"@]); }
    w.push(KanjiEntry { kanji: '主', readings: &["shu"] });
    proof { lemma_readings_view(w@.last().readings, seq!["shu"@]); }
    w.push(KanjiEntry { kanji: '私', readings: &["shi", "watashi", "watakushi"] });
    proof { lemma_readings_view(w@.last().readings, seq!["shi"@, "watashi"@, "watakushi"@]); }
    w.push(KanjiEntry { kanji: '自', readings: &["ji", "shi"] });
    proof { lemma_readings_view(w@.last().readings, seq!["ji"@, "shi"@]); }
    w.push(KanjiEntry { kanji: '年', readings: &["nen"] });
    proof { lemma_readings_view(w@.last().readings, seq!["nen"@]); }
    w.push(KanjiEntry { kanji: '早', readings: &["sou", "sa"] });
    proof { lemma_readings_view(w@.last().readings, seq!["sou"@, "sa"@]); }
    w.push(KanjiEntry { kanji: '夕', readings: &["seki"] });
    proof { lemma_readings_view(w@.last().readings, seq!["seki"@]); }
    w.push(KanjiEntry { kanji: '朝', readings: &["chou"] });
    proof { lemma_readings_view(w@.last().readings, seq!["chou"@]); }
    w.push(KanjiEntry { kanji: '夜', readings: &["ya"] });
    proof { lemma_readings_view(w@.last().readings, seq!["ya"@]); }
    w.push(KanjiEntry { kanji: '春', readings: &["shun"] });
    proof { lemma_readings_view(w@.last().readings, seq!["shun"@]); }
    w.push(KanjiEntry { kanji: '夏', readings: &["ka", "ge"] });
    proof { lemma_readings_view(w@.last().readings, seq!["ka"@, "ge"@]); }
    w.push(KanjiEntry { kanji: '秋', readings: &["shuu"] });
    proof { lemma_readings_view(w@.last().readings, seq!["shuu"@]); }
    w.push(KanjiEntry { kanji: '冬', readings: &["tou"] });
    proof { lemma_readings_view(w@.last().readings, seq!["tou"@]); }
    w.push(KanjiEntry { kanji: '古', readings: &["ko"] });
    proof { lemma_readings_view(w@.last().readings, seq!["ko"@]); }
    w.push(KanjiEntry { kanji: '今', readings: &["kon", "kin"] });
    proof { lemma_readings_view(w@.last().readings, seq!["kon"@, "kin"@]); }
    w.push(KanjiEntry { kanji: '新', readings: &["shin"] });
    proof { lemma_readings_view(w@.last().readings, seq!["shin"@]); }
    w.push(KanjiEntry { kanji: '明', readings: &["mei", "myou"] });
    proof { lemma_readings_view(w@.last().readings, seq!["mei"@, "myou"@]); }
    assert(kanji_view(w@) =~= kanji_rows_3());
    w
}

/// Rows 80.. of the table.
pub open spec fn kanji_rows_4() -> Seq<(char, Seq<Seq<char>>)> {
    seq![
        ('元', seq!["gen"@, "gan"@]),
        ('周', seq!["shuu"@]),
        ('行', seq!["kou"@, "gyou"@, "an"@]),
        ('来', seq!["rai"@]),
        ('入', seq!["nyuu"@]),
        ('出', seq!["shutsu"@, "sui"@]),
        ('立', seq!["ritsu"@, "ryuu"@]),
        ('生', seq!["sei"@, "shou"@]),
        ('先', seq!["sen"@]),
        ('安', seq!["an"@]),
        ('美', seq!["bi"@, "mi"@]),
        ('白', seq!["haku"@, "byaku"@]),
        ('赤', seq!["seki"@, "shaku"@]),
        ('青', seq!["sei"@, "shou"@]),
        ('黄', seq!["kou"@, "ou"@]),
        ('文', seq!["bun"@, "mon"@]),
        ('字', seq!["ji"@]),
        ('学', seq!["gaku"@]),
        ('名', seq!["mei"@, "myou"@]),
        ('心', seq!["shin"@]),
    ]
}

fn kanji_part_4() -> (r: Vec<KanjiEntry>)
    ensures
        kanji_view(r@) == kanji_rows_4(),
{
    let mut w: Vec<KanjiEntry> = Vec::new();
    w.push(KanjiEntry { kanji: '元', readings: &["gen", "gan"] });
    proof { lemma_readings_view(w@.last().readings, seq!["gen"@, "gan"@]); }
    w.push(KanjiEntry { kanji: '周', readings: &["shuu"] });
    proof { lemma_readings_view(w@.last().readings, seq!["shuu"@]); }
    w.push(KanjiEntry { kanji: '行', readings: &["kou", "gyou", "an"] });
    proof { lemma_readings_view(w@.last().readings, seq!["kou"@, "gyou"@, "an"@]); }
    w.push(KanjiEntry { kanji: '来', readings: &["rai"] });
    proof { lemma_readings_view(w@.last().readings, seq!["rai"@]); }
    w.push(KanjiEntry { kanji: '入', readings: &["nyuu"] });
    proof { lemma_readings_view(w@.last().readings, seq!["nyuu"@]); }
    w.push(KanjiEntry { kanji: '出', readings: &["shutsu", "sui"] });
    proof { lemma_readings_view(w@.last().readings, seq!["shutsu"@, "sui"@]); }
    w.push(KanjiEntry { kanji: '立', readings: &["ritsu", "ryuu"] });
    proof { lemma_readings_view(w@.last().readings, seq!["ritsu"@, "ryuu"@]); }
    w.push(KanjiEntry { kanji: '生', readings: &["sei", "shou"] });
    proof { lemma_readings_view(w@.last().readings, seq!["sei"@, "shou"@]); }
    w.push(KanjiEntry { kanji: '先', readings: &["sen"] });
    proof { lemma_readings_view(w@.last().readings, seq!["sen"@]); }
    w.push(KanjiEntry { kanji: '安', readings: &["an"] });
    proof { lemma_readings_view(w@.last().readings, seq!["an"@]); }
    w.push(KanjiEntry { kanji: '美', readings: &["bi", "mi"] });
    proof { lemma_readings_view(w@.last().readings, seq!["bi"@, "mi"@]); }
    w.push(KanjiEntry { kanji: '白', readings: &["haku", "byaku"] });
    proof { lemma_readings_view(w@.last().readings, seq!["haku"@, "byaku"@]); }
    w.push(KanjiEntry { kanji: '赤', readings: &["seki", "shaku"] });
    proof { lemma_readings_view(w@.last().readings, seq!["seki"@, "shaku"@]); }
    w.push(KanjiEntry { kanji: '青', readings: &["sei", "shou"] });
    proof { lemma_readings_view(w@.last().readings, seq!["sei"@, "shou"@]); }
    w.push(KanjiEntry { kanji: '黄', readings: &["kou", "ou"] });
    proof { lemma_readings_view(w@.last().readings, seq!["kou"@, "ou"@]); }
    w.push(KanjiEntry { kanji: '文', readings: &["bun", "mon"] });
    proof { lemma_readings_view(w@.last().readings, seq!["bun"@, "mon"@]); }
    w.push(KanjiEntry { kanji: '字', readings: &["ji"] });
    proof { lemma_readings_view(w@.last().readings, seq!["ji"@]); }
    w.push(KanjiEntry { kanji: '学', readings: &["gaku"] });
    proof { lemma_readings_view(w@.last().readings, seq!["gaku"@]); }
    w.push(KanjiEntry { kanji: '名', readings: &["mei", "myou"] });
    proof { lemma_readings_view(w@.last().readings, seq!["mei"@, "myou"@]); }
    w.push(KanjiEntry { kanji: '心', readings: &["shin"] });
    proof { lemma_readings_view(w@.last().readings, seq!["shin"@]); }
    assert(kanji_view(w@) =~= kanji_rows_4());
    w
}

/// Rows 100.. of the table.
pub open spec fn kanji_rows_5() -> Seq<(char, Seq<Seq<char>>)> {
    seq![
        ('思', seq!["shi"@]),
        ('言', seq!["gen"@, "gon"@]),
        ('音', seq!["on"@, "in"@]),
        ('画', seq!["ga"@, "kaku"@]),
        ('体', seq!["tai"@, "tei"@]),
        ('物', seq!["butsu"@, "motsu"@]),
        ('力', seq!["ryoku"@, "riki"@]),
        ('工', seq!["kou"@, "ku"@]),
        ('玉', seq!["gyoku"@]),
        ('国', seq!["koku"@]),
        ('本', seq!["hon"@]),
        ('道', seq!["dou"@, "tou"@]),
        ('路', seq!["ro"@]),
        ('校', seq!["kou"@]),
        ('会', seq!["kai"@, "e"@]),
        ('社', seq!["sha"@]),
        ('政', seq!["sei"@, "shou"@]),
        ('治', seq!["ji"@, "chi"@]),
        ('全', seq!["zen"@]),
        ('同', seq!["dou"@]),
    ]
}

fn kanji_part_5() -> (r: Vec<KanjiEntry>)
    ensures
        kanji_view(r@) == kanji_rows_5(),
{
    let mut w: Vec<KanjiEntry> = Vec::new();
    w.push(KanjiEntry { kanji: '思', readings: &["shi"] });
    proof { lemma_readings_view(w@.last().readings, seq!["shi"@]); }
    w.push(KanjiEntry { kanji: '言', readings: &["gen", "gon"] });
    proof { lemma_readings_view(w@.last().readings, seq!["gen"@, "gon"@]); }
    w.push(KanjiEntry { kanji: '音', readings: &["on", "in"] });
    proof { lemma_readings_view(w@.last().readings, seq!["on"@, "in"@]); }
    w.push(KanjiEntry { kanji: '画', readings: &["ga", "kaku"] });
    proof { lemma_readings_view(w@.last().readings, seq!["ga"@, "kaku"@]); }
    w.push(KanjiEntry { kanji: '体', readings: &["tai", "tei"] });
    proof { lemma_readings_view(w@.last().readings, seq!["tai"@, "tei"@]); }
    w.push(KanjiEntry { kanji: '物', readings: &["butsu", "motsu"] });
    proof { lemma_readings_view(w@.last().readings, seq!["butsu"@, "motsu"@]); }
    w.push(KanjiEntry { kanji: '力', readings: &["ryoku", "riki"] });
    proof { lemma_readings_view(w@.last().readings, seq!["ryoku"@, "riki"@]); }
    w.push(KanjiEntry { kanji: '工', readings: &["kou", "ku"] });
    proof { lemma_readings_view(w@.last().readings, seq!["kou"@, "ku"@]); }
    w.push(KanjiEntry { kanji: '玉', readings: &["gyoku"] });
    proof { lemma_readings_view(w@.last().readings, seq!["gyoku"@]); }
    w.push(KanjiEntry { kanji: '国', readings: &["koku"] });
    proof { lemma_readings_view(w@.last().readings, seq!["koku"@]); }
    w.push(KanjiEntry { kanji: '本', readings: &["hon"] });
    proof { lemma_readings_view(w@.last().readings, seq!["hon"@]); }
    w.push(KanjiEntry { kanji: '道', readings: &["dou", "tou"] });
    proof { lemma_readings_view(w@.last().readings, seq!["dou"@, "tou"@]); }
    w.push(KanjiEntry { kanji: '路', readings: &["ro"] });
    proof { lemma_readings_view(w@.last().readings, seq!["ro"@]); }
    w.push(KanjiEntry { kanji: '校', readings: &["kou"] });
    proof { lemma_readings_view(w@.last().readings, seq!["kou"@]); }
    w.push(KanjiEntry { kanji: '会', readings: &["kai", "e"] });
    proof { lemma_readings_view(w@.last().readings, seq!["kai"@, "e"@]); }
    w.push(KanjiEntry { kanji: '社', readings: &["sha"] });
    proof { lemma_readings_view(w@.last().readings, seq!["sha"@]); }
    w.push(KanjiEntry { kanji: '政', readings: &["sei", "shou"] });
    proof { lemma_readings_view(w@.last().readings, seq!["sei"@, "shou"@]); }
    w.push(KanjiEntry { kanji: '治', readings: &["ji", "chi"] });
    proof { lemma_readings_view(w@.last().readings, seq!["ji"@, "chi"@]); }
    w.push(KanjiEntry { kanji: '全', readings: &["zen"] });
    proof { lemma_readings_view(w@.last().readings, seq!["zen"@]); }
    w.push(KanjiEntry { kanji: '同', readings: &["dou"] });
    proof { lemma_readings_view(w@.last().readings, seq!["dou"@]); }
    assert(kanji_view(w@) =~= kanji_rows_5());
    w
}

/// Rows 120.. of the table.
pub open spec fn kanji_rows_6() -> Seq<(char, Seq<Seq<char>>)> {
    seq![
        ('共', seq!["kyou"@]),
        ('半', seq!["han"@]),
        ('数', seq!["suu"@]),
        ('化', seq!["ka"@, "ke"@]),
        ('由', seq!["yuu"@, "yu"@]),
        ('真', seq!["shin"@]),
        ('写', seq!["sha"@]),
        ('漫', seq!["man"@]),
        ('仕', seq!["shi"@, "ji"@]),
        ('事', seq!["ji"@]),
        ('供', seq!["kyou"@, "ku"@]),
        ('食', seq!["shoku"@]),
        ('米', seq!["bei"@, "mai"@]),
        ('麦', seq!["baku"@]),
        ('茶', seq!["cha"@, "sa"@]),
        ('牛', seq!["gyuu"@]),
        ('犬', seq!["ken"@]),
        ('何', seq!["ka"@]),
    ]
}

fn kanji_part_6() -> (r: Vec<KanjiEntry>)
    ensures
        kanji_view(r@) == kanji_rows_6(),
{
    let mut w: Vec<KanjiEntry> = Vec::new();
    w.push(KanjiEntry { kanji: '共', readings: &["kyou"] });
    proof { lemma_readings_view(w@.last().readings, seq!["kyou"@]); }
    w.push(KanjiEntry { kanji: '半', readings: &["han"] });
    proof { lemma_readings_view(w@.last().readings, seq!["han"@]); }
    w.push(KanjiEntry { kanji: '数', readings: &["suu"] });
    proof { lemma_readings_view(w@.last().readings, seq!["suu"@]); }
    w.push(KanjiEntry { kanji: '化', readings: &["ka", "ke"] });
    proof { lemma_readings_view(w@.last().readings, seq!["ka"@, "ke"@]); }
    w.push(KanjiEntry { kanji: '由', readings: &["yuu", "yu"] });
    proof { lemma_readings_view(w@.last().readings, seq!["yuu"@, "yu"@]); }
    w.push(KanjiEntry { kanji: '真', readings: &["shin"] });
    proof { lemma_readings_view(w@.last().readings, seq!["shin"@]); }
    w.push(KanjiEntry { kanji: '写', readings: &["sha"] });
    proof { lemma_readings_view(w@.last().readings, seq!["sha"@]); }
    w.push(KanjiEntry { kanji: '漫', readings: &["man"] });
    proof { lemma_readings_view(w@.last().readings, seq!["man"@]); }
    w.push(KanjiEntry { kanji: '仕', readings: &["shi", "ji"] });
    proof { lemma_readings_view(w@.last().readings, seq!["shi"@, "ji"@]); }
    w.push(KanjiEntry { kanji: '事', readings: &["ji"] });
    proof { lemma_readings_view(w@.last().readings, seq!["ji"@]); }
    w.push(KanjiEntry { kanji: '供', readings: &["kyou", "ku"] });
    proof { lemma_readings_view(w@.last().readings, seq!["kyou"@, "ku"@]); }
    w.push(KanjiEntry { kanji: '食', readings: &["shoku"] });
    proof { lemma_readings_view(w@.last().readings, seq!["shoku"@]); }
    w.push(KanjiEntry { kanji: '米', readings: &["bei", "mai"] });
    proof { lemma_readings_view(w@.last().readings, seq!["bei"@, "mai"@]); }
    w.push(KanjiEntry { kanji: '麦', readings: &["baku"] });
    proof { lemma_readings_view(w@.last().readings, seq!["baku"@]); }
    w.push(KanjiEntry { kanji: '茶', readings: &["cha", "sa"] });
    proof { lemma_readings_view(w@.last().readings, seq!["cha"@, "sa"@]); }
    w.push(KanjiEntry { kanji: '牛', readings: &["gyuu"] });
    proof { lemma_readings_view(w@.last().readings, seq!["gyuu"@]); }
    w.push(KanjiEntry { kanji: '犬', readings: &["ken"] });
    proof { lemma_readings_view(w@.last().readings, seq!["ken"@]); }
    w.push(KanjiEntry { kanji: '何', readings: &["ka"] });
    proof { lemma_readings_view(w@.last().readings, seq!["ka"@]); }
    assert(kanji_view(w@) =~= kanji_rows_6());
    w
}

/// The table as (kanji, readings).
pub open spec fn kanji_rows() -> Seq<(char, Seq<Seq<char>>)> {
    kanji_rows_0() + kanji_rows_1() + kanji_rows_2() + kanji_rows_3() + kanji_rows_4() + kanji_rows_5() + kanji_rows_6()
}

/// The kanji table, grouped by semantic family, most frequent first.
pub fn kanji_table() -> (r: Vec<KanjiEntry>)
    ensures
        kanji_view(r@) == kanji_rows(),
{
    let mut v: Vec<KanjiEntry> = Vec::new();
    assert(kanji_view(v@) =~= Seq::<(char, Seq<Seq<char>>)>::empty());
    let mut p0 = kanji_part_0();
    v.append(&mut p0);
    assert(kanji_view(v@) =~= kanji_rows_0());
    let mut p1 = kanji_part_1();
    v.append(&mut p1);
    assert(kanji_view(v@) =~= kanji_rows_0() + kanji_rows_1());
    let mut p2 = kanji_part_2();
    v.append(&mut p2);
    assert(kanji_view(v@) =~= kanji_rows_0() + kanji_rows_1() + kanji_rows_2());
    let mut p3 = kanji_part_3();
    v.append(&mut p3);
    assert(kanji_view(v@) =~= kanji_rows_0() + kanji_rows_1() + kanji_rows_2() + kanji_rows_3());
    let mut p4 = kanji_part_4();
    v.append(&mut p4);
    assert(kanji_view(v@) =~= kanji_rows_0() + kanji_rows_1() + kanji_rows_2() + kanji_rows_3() + kanji_rows_4());
    let mut p5 = kanji_part_5();
    v.append(&mut p5);
    assert(kanji_view(v@) =~= kanji_rows_0() + kanji_rows_1() + kanji_rows_2() + kanji_rows_3() + kanji_rows_4() + kanji_rows_5());
    let mut p6 = kanji_part_6();
    v.append(&mut p6);
    assert(kanji_view(v@) =~= kanji_rows_0() + kanji_rows_1() + kanji_rows_2() + kanji_rows_3() + kanji_rows_4() + kanji_rows_5() + kanji_rows_6());
    assert(kanji_view(v@) =~= kanji_rows());
    v
}

/// The kanji of `rows` with `s` among their readings, in table order.
pub open spec fn kanji_read(rows: Seq<(char, Seq<Seq<char>>)>, s: Seq<char>) -> Seq<char>
    decreases rows.len(),
{
    if rows.len() == 0 {
        Seq::empty()
    } else if rows.last().1.contains(s) {
        kanji_read(rows.drop_last(), s).push(rows.last().0)
    } else {
        kanji_read(rows.drop_last(), s)
    }
}

/// Whether `s` is one of `readings`.
fn has_reading(readings: &[&'static str], s: &str) -> (r: bool)
    ensures
        r == readings@.map_values(|x: &'static str| x@).contains(s@),
{
    let ghost rs = readings@.map_values(|x: &'static str| x@);
    let mut i: usize = 0;
    while i < readings.len()
        invariant
            i <= readings@.len(),
            rs == readings@.map_values(|x: &'static str| x@),
            forall|j: int| 0 <= j < i ==> rs[j] != s@,
        decreases readings@.len() - i,
    {
        if str_eq(readings[i], s) {
            assert(rs[i as int] == s@);
            return true;
        }
        i = i + 1;
    }
    assert(!rs.contains(s@));
    false
}

/// The kanji with `reading` among their on-yomi, in table order.
pub fn lookup_by_reading(reading: &str) -> (r: Vec<char>)
    ensures
        r@ == kanji_read(kanji_rows(), reading@),
{
    let t = kanji_table();
    let ghost rows = kanji_view(t@);
    let mut out: Vec<char> = Vec::new();
    let mut i: usize = 0;
    while i < t.len()
        invariant
            i <= t@.len(),
            rows == kanji_view(t@),
            rows == kanji_rows(),
            out@ == kanji_read(rows.take(i as int), reading@),
        decreases t@.len() - i,
    {
        assert(rows.take(i + 1).drop_last() =~= rows.take(i as int));
        assert(rows.take(i + 1).last() == rows[i as int]);
        if has_reading(t[i].readings, reading) {
            out.push(t[i].kanji);
        }
        i = i + 1;
    }
    assert(rows.take(i as int) =~= rows);
    out
}

} // verus!
