use gashapon::draw_prize_item;
use gashapon::utils::randomize;
use gashapon::utils::rng;
use gashapon::Gashapon;
use gashapon::GashaponError;
use gashapon::GashaponItem;
use gashapon::PrizeId;
use gashapon::PrizeItem;
use gashapon::Prizes;

fn sample_machine() -> Gashapon {
    let mut g = Gashapon::default();
    g.add_item(GashaponItem::new(PrizeItem::new("Item1")).with_quantity(2));
    g.add_item(GashaponItem::new(PrizeItem::new("Item2")).with_quantity(3));
    g.with_seed(12345);
    g.build();
    g
}

fn rate_value(numerator: u64, denominator: u128) -> f64 {
    if denominator == 0 {
        0.0
    } else {
        (numerator as f64) / (denominator as f64)
    }
}

#[test]
fn rng_stream_is_deterministic() {
    let mut a: usize = 4242;
    let mut b: usize = 4242;
    for _ in 0..16 {
        let x = rng(&mut a);
        let y = rng(&mut b);
        assert_eq!(x, y);
        assert!(x < 0x8000);
        assert_eq!(a, b);
    }
}

#[test]
fn randomize_keeps_elements() {
    for seed0 in [0usize, 1, 999, 123455] {
        let mut seed = seed0;
        let data = vec![10, 20, 30, 40, 50];
        let mut shuffled = randomize(data.clone(), &mut seed);
        assert_eq!(shuffled.len(), data.len());
        shuffled.sort();
        assert_eq!(shuffled, data);
        assert_ne!(seed, seed0, "the seed advances as a side effect");
    }
}

#[test]
fn randomize_is_seed_deterministic() {
    let mut s1: usize = 777;
    let mut s2: usize = 777;
    let data = vec![1, 2, 3, 4, 5, 6, 7, 8];
    assert_eq!(
        randomize(data.clone(), &mut s1),
        randomize(data.clone(), &mut s2)
    );
    assert_eq!(s1, s2);
}

#[test]
fn draws_until_exhausted() {
    let mut g = sample_machine();
    assert_eq!(g.remaining_count(), 5);
    for turn in 0..5 {
        let item = g.draw().expect("a built pool with slots left yields a prize");
        assert!(item.name == "Item1" || item.name == "Item2");
        assert_eq!(g.remaining_count(), 4 - turn);
    }
    assert_eq!(g.remaining_count(), 0);
    assert!(matches!(g.draw(), Err(GashaponError::Exhausted)));
}

#[test]
fn same_seed_same_draws() {
    let mut first = sample_machine();
    let mut second = sample_machine();
    while first.remaining_count() > 0 {
        assert_eq!(first.draw().unwrap().name, second.draw().unwrap().name);
    }
    assert_eq!(second.remaining_count(), 0);
}

#[test]
fn draws_respect_quantities() {
    let mut g = sample_machine();
    let mut item1 = 0;
    let mut item2 = 0;
    while g.remaining_count() > 0 {
        match g.draw().unwrap().name.as_str() {
            "Item1" => item1 += 1,
            "Item2" => item2 += 1,
            other => panic!("unexpected prize {other}"),
        }
    }
    assert_eq!(item1, 2, "each unit of Item1 is drawn exactly once");
    assert_eq!(item2, 3, "each unit of Item2 is drawn exactly once");
}

#[test]
fn draw_prize_item_regression() {
    let pool = vec![
        PrizeItem::new("A"),
        PrizeItem::new("B"),
        PrizeItem::new("C"),
    ];
    let mut idx_box: Vec<usize> = vec![0, 1, 2];
    let mut seed: usize = 123455;
    let drawn = draw_prize_item(&pool, &mut idx_box, &mut seed).unwrap();
    assert_eq!(drawn.name, "B");
    assert_eq!(idx_box.len(), 2);
}

#[test]
fn draw_prize_item_exhausted() {
    let pool = vec![PrizeItem::new("A")];
    let mut idx_box: Vec<usize> = Vec::new();
    let mut seed: usize = 1;
    assert!(matches!(
        draw_prize_item(&pool, &mut idx_box, &mut seed),
        Err(GashaponError::Exhausted)
    ));
    assert_eq!(seed, 1, "a failed draw leaves the seed untouched");
}

#[test]
fn draw_rate_distribution() {
    let mut g = Gashapon::default();
    g.add_items(vec![
        GashaponItem::new(PrizeItem::new("Item1")).with_quantity(2),
        GashaponItem::new(PrizeItem::new("Item2")).with_quantity(3),
        GashaponItem::new(PrizeItem::new("Item3")).with_quantity(5),
    ]);
    g.with_seed(12345);
    g.build();

    let rates = g.calculate_draw_rate();
    assert_eq!(rates.len(), 3);
    let sum: f64 = rates
        .iter()
        .map(|r| rate_value(r.numerator, r.denominator))
        .sum();
    assert!((sum - 1.0).abs() < 1e-9, "rates sum to one");
    for r in &rates {
        let v = rate_value(r.numerator, r.denominator);
        assert!((0.0..=1.0).contains(&v));
        if r.item.prize.name == "Item3" {
            assert!((v - 0.5).abs() < 1e-9, "Item3 holds half the pool");
        } else {
            assert!(v < 0.5);
        }
    }
}

#[test]
fn draw_rate_of_empty_totals_is_zero() {
    let mut g = Gashapon::default();
    g.add_item(GashaponItem::new(PrizeItem::new("Item1")).with_quantity(0));
    g.add_item(GashaponItem::new(PrizeItem::new("Item2")).with_quantity(0));
    g.with_seed(7);
    g.build();

    assert_eq!(g.remaining_count(), 0);
    let rates = g.calculate_draw_rate();
    assert_eq!(rates.len(), 2);
    for r in &rates {
        assert_eq!(r.numerator, 0);
        assert_eq!(r.denominator, 0);
        assert_eq!(rate_value(r.numerator, r.denominator), 0.0);
    }
    assert!(matches!(g.draw(), Err(GashaponError::Exhausted)));
}

#[test]
fn restore_reproduces_draw_rates() {
    let mut g = sample_machine();
    let before: Vec<(String, u64, u128)> = g
        .calculate_draw_rate()
        .iter()
        .map(|r| (r.item.prize.name.clone(), r.numerator, r.denominator))
        .collect();

    g.draw().unwrap();
    g.draw().unwrap();
    g.restore_items();

    let after: Vec<(String, u64, u128)> = g
        .calculate_draw_rate()
        .iter()
        .map(|r| (r.item.prize.name.clone(), r.numerator, r.denominator))
        .collect();
    assert_eq!(before, after);
}

#[test]
fn remove_unknown_prize_fails() {
    let mut g = Gashapon::default();
    assert!(matches!(
        g.remove_item(PrizeId::new("Ghost")),
        Err(GashaponError::UnknownPrizeId)
    ));
    g.add_item(GashaponItem::new(PrizeItem::new("Item1")).with_quantity(1));
    assert!(g.remove_item(PrizeId::new("Item1")).is_ok());
    assert!(matches!(
        g.remove_item(PrizeId::new("Item1")),
        Err(GashaponError::UnknownPrizeId)
    ));
}

#[test]
fn update_quantity_keeps_restore_target() {
    let mut g = Gashapon::default();
    g.add_item(GashaponItem::new(PrizeItem::new("Item1")).with_quantity(2));
    assert!(matches!(
        g.update_item_quantity(PrizeId::new("Ghost"), 9),
        Err(GashaponError::UnknownPrizeId)
    ));
    assert!(g.update_item_quantity(PrizeId::new("Item1"), 9).is_ok());

    g.with_seed(3);
    g.build();
    assert_eq!(g.remaining_count(), 9);

    g.restore_items();
    assert_eq!(g.remaining_count(), 2, "restore goes back to the original quantity");
}

#[test]
fn stale_pool_draw_fails() {
    let mut g = Gashapon::default();
    g.add_item(GashaponItem::new(PrizeItem::new("Item1")).with_quantity(1));
    g.with_seed(5);
    g.build();
    assert!(g.remove_item(PrizeId::new("Item1")).is_ok());
    assert!(matches!(g.draw(), Err(GashaponError::UnknownPrizeId)));
}

#[test]
fn upsert_replaces_same_name() {
    let mut g = Gashapon::default();
    g.add_item(GashaponItem::new(PrizeItem::new("Item1")).with_quantity(2));
    g.add_item(GashaponItem::new(PrizeItem::new("Item1")).with_quantity(5));
    let rates = g.calculate_draw_rate();
    assert_eq!(rates.len(), 1);
    assert_eq!(rates[0].numerator, 5);
}

#[test]
fn prize_id_is_stable() {
    let a = PrizeId::new("Item1");
    let b = PrizeId::new("Item1");
    let c = PrizeId::new("Item2");
    assert_eq!(a, b);
    assert_eq!(a.get_id(), b.get_id());
    assert_ne!(a.get_id(), c.get_id());
    assert_eq!(a.to_string(), format!("{}", a.get_id()));
    assert_eq!(PrizeId::new("").to_string(), format!("{}", PrizeId::new("").get_id()));
}

#[test]
fn pool_view_marks_drawn_slots() {
    let mut g = sample_machine();
    let view = g.prizes.get_randomized_items();
    assert_eq!(view.len(), 5);
    assert!(view.iter().all(|slot| slot.is_some()));

    g.draw().unwrap();
    let view = g.prizes.get_randomized_items();
    assert_eq!(view.len(), 5);
    assert_eq!(view.iter().filter(|slot| slot.is_none()).count(), 1);
}

#[test]
fn pool_lookup_by_index() {
    let mut prizes = Prizes::new();
    prizes.with_items(&vec![
        GashaponItem::new(PrizeItem::new("Item1")).with_quantity(2),
    ]);
    assert_eq!(prizes.quantity(), 2);
    assert_eq!(prizes.get_item_by_index(None).map(|p| p.name.clone()), None);
    assert_eq!(
        prizes.get_item_by_index(Some(1)).map(|p| p.name.clone()),
        Some("Item1".to_string())
    );
    assert_eq!(prizes.get_item_by_index(Some(2)).map(|p| p.name.clone()), None);
}
