use deordinal::{KEYWORD_PREFIX, ORDINAL_PREFIX, check_line};

fn rule(text: &str) -> Option<&'static str> {
    let mut diagnostics = Vec::new();
    check_line(text, 0, &mut diagnostics);
    diagnostics.first().map(|d| d.rule.name())
}

#[test]
fn ordinal_examples() {
    for case in [
        "1. 概要",
        "1: 設定",
        "1) 概要",
        "1．導入",
        "1、準備",
        "1.29 機能説明",
        "1.2.3 設計",
        "1.29: 詳細",
        "A) 手順",
        "a. 手順",
        "(1) 概要",
        "[a] 概要",
        "(一) 概要",
        "① 項目",
        "㊿ 項目",
        "一、 はじめに",
    ] {
        assert_eq!(rule(case), Some(ORDINAL_PREFIX), "{case}");
    }
}

#[test]
fn keyword_examples() {
    for case in [
        "Step 1",
        "Step 1: 初期化",
        "Phase A",
        "phase A: 計画",
        "ステップ 1",
        "フェーズ1: 開発",
        "タスク 1. 調査",
        "ステージ ① 準備",
    ] {
        assert_eq!(rule(case), Some(KEYWORD_PREFIX), "{case}");
    }
}

#[test]
fn negative_examples() {
    for case in [
        "e.g. 例えば",
        "i.e., つまり",
        "https://example.com/step1",
        "1.29 GB",
        "1.29 GB/s の転送",
        "1.29 は 1.3 未満",
        "1.0.0 のリリース",
        "1.29 以下の場合",
        "1.29 = x",
        "2025 年の目標",
        "7 倍の高速化",
        "7倍の高速化",
        "100 円のコスト",
        "1 BTC",
        "- 項目",
        "空の見出し",
        "",
        "   ",
        "Step 1abc",
        "API. documentation",
        "㋐ 項目",
    ] {
        assert_eq!(rule(case), None, "{case}");
    }
}

#[test]
fn diagnostics_point_at_label() {
    let mut diagnostics = Vec::new();
    check_line("  Step 1: 準備", 10, &mut diagnostics);
    assert_eq!(diagnostics[0].start, 12);
    assert_eq!(diagnostics[0].rule, KEYWORD_PREFIX);
}
