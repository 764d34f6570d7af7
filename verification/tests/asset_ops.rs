use antelope::Asset;
use antelope::AssetError;
use antelope::Symbol;
use antelope::MAX_AMOUNT;

#[test]
fn test_cdt_1() {
    assert_eq!(Asset::new().symbol.raw(), 0);
    assert_eq!(Asset::new().amount, 0);
}

#[test]
fn test_asset_creation() {
    let asset = Asset {
        amount: 1000,
        symbol: Symbol::from("4,SYS"),
    };
    assert_eq!(asset.amount, 1000);
    assert_eq!(asset.symbol, Symbol::from("4,SYS"));
}

#[test]
fn test_asset_equality() {
    let asset1 = Asset {
        amount: 1000,
        symbol: Symbol::from("4,SYS"),
    };
    let asset2 = Asset {
        amount: 1000,
        symbol: Symbol::from("4,SYS"),
    };
    assert!(asset1.eq(&asset2).unwrap());
}

#[test]
fn test_inequality_operator() {
    let asset1 = Asset {
        amount: 100,
        symbol: Symbol::from("4,SYM"),
    };
    let asset2 = Asset {
        amount: 200,
        symbol: Symbol::from("4,SYM"),
    };
    assert!(!asset1.eq(&asset2).unwrap());
}

#[test]
fn test_ord_operator() {
    let asset1 = Asset {
        amount: 100,
        symbol: Symbol::from("4,SYM"),
    };
    let asset2 = Asset {
        amount: 200,
        symbol: Symbol::from("4,SYM"),
    };
    let asset3 = Asset {
        amount: 200,
        symbol: Symbol::from("4,SYM"),
    };
    assert!(asset1.lt(&asset2).unwrap());
    assert!(asset2.gt(&asset1).unwrap());
    assert!(asset1.le(&asset2).unwrap());
    assert!(asset2.ge(&asset1).unwrap());
    assert!(asset3.ge(&asset2).unwrap());
    assert!(asset3.le(&asset2).unwrap());
}

#[test]
fn test_neg() {
    let asset = Asset::from_amount(100, Symbol::new());
    let negated_asset = asset.neg();
    assert_eq!(negated_asset.amount, -100);
}

#[test]
fn test_sub_assign() {
    let mut asset1 = Asset {
        amount: 100,
        symbol: Symbol::new(),
    };
    let asset2 = Asset {
        amount: 50,
        symbol: Symbol::new(),
    };
    asset1.sub_assign(&asset2);
    assert_eq!(asset1.amount, 50);
}

#[test]
fn test_asset_addition() {
    let asset_a = Asset {
        symbol: Symbol::from("4,SYS"),
        amount: 1000,
    };
    let asset_b = Asset {
        symbol: Symbol::from("4,SYS"),
        amount: 2000,
    };
    let result = asset_a.add(&asset_b).unwrap();
    assert_eq!(result.symbol, Symbol::from("4,SYS"));
    assert_eq!(result.amount, 3000);
}

#[test]
fn test_asset_subtraction() {
    let asset_a = Asset {
        symbol: Symbol::from("4,SYS"),
        amount: 3000,
    };
    let asset_b = Asset {
        symbol: Symbol::from("4,SYS"),
        amount: 2000,
    };
    let result = asset_a.sub(&asset_b).unwrap();
    assert_eq!(result.symbol, Symbol::from("4,SYS"));
    assert_eq!(result.amount, 1000);
}

#[test]
fn test_mul_assign() {
    let mut asset = Asset {
        symbol: Symbol::from("4,SYS"),
        amount: 10,
    };
    asset.mul_assign(2);
    assert_eq!(asset.amount, 20);
    asset.mul_assign(3);
    assert_eq!(asset.amount, 60);
}

#[test]
fn test_multiplication_operator() {
    let asset1 = Asset {
        amount: 100,
        symbol: Symbol::from("4,SYM"),
    };
    let asset2 = asset1.mul(5).unwrap();
    assert_eq!(asset2.amount, 500);
    assert_eq!(asset2.symbol, Symbol::from("4,SYM"));
    let asset3 = asset1.mul(-5).unwrap();
    assert_eq!(asset3.amount, -500);
    assert_eq!(asset3.symbol, Symbol::from("4,SYM"));
}

#[test]
fn test_div_assign() {
    let mut asset1 = Asset {
        amount: 100,
        symbol: Symbol::from("4,SYM"),
    };
    asset1.div_assign(2);
    assert_eq!(asset1.amount, 50);
    asset1.div_assign(-5);
    assert_eq!(asset1.amount, -10);
}

#[test]
fn test_divide_operator() {
    let asset = Asset {
        amount: 100,
        symbol: Symbol::from("4,SYM"),
    };
    let result = asset.div(2).unwrap();
    assert_eq!(result.amount, 50);
    assert_eq!(result.symbol, Symbol::from("4,SYM"));
}

#[test]
fn test_asset_divide_asset_operator() {
    let asset1 = Asset {
        amount: 100,
        symbol: Symbol::from("4,SYM"),
    };
    let asset2 = Asset {
        amount: 50,
        symbol: Symbol::from("4,SYM"),
    };
    let result = asset1.ratio(&asset2).unwrap();
    assert_eq!(result, 2);
}

#[test]
fn set_amount_replaces_amount() {
    let mut asset = Asset::from_amount(7, Symbol::from("4,SYM"));
    asset.set_amount(42);
    assert_eq!(asset.amount, 42);
    assert_eq!(asset.symbol, Symbol::from("4,SYM"));
}

#[test]
fn range_check_rejects_amount_beyond_max() {
    let over = Asset::from_amount(MAX_AMOUNT + 1, Symbol::from("4,SYM"));
    assert!(!over.is_amount_within_range());
    assert!(!over.is_valid());
    let under = Asset::from_amount(-MAX_AMOUNT - 1, Symbol::from("4,SYM"));
    assert!(!under.is_amount_within_range());
    let max = Asset::from_amount(MAX_AMOUNT, Symbol::from("4,SYM"));
    assert!(max.is_amount_within_range());
    assert!(max.is_valid());
}

#[test]
fn addition_overflow_is_reported() {
    let at_max = Asset::from_amount(MAX_AMOUNT, Symbol::from("4,SYM"));
    let one = Asset::from_amount(1, Symbol::from("4,SYM"));
    assert!(matches!(at_max.add(&one), Err(AssetError::Overflow)));
    assert!(matches!(at_max.neg().add(&one.neg()), Err(AssetError::Underflow)));
}

#[test]
fn subtraction_overflow_is_reported() {
    let at_min = Asset::from_amount(-MAX_AMOUNT, Symbol::from("4,SYM"));
    let one = Asset::from_amount(1, Symbol::from("4,SYM"));
    assert!(matches!(at_min.sub(&one), Err(AssetError::Underflow)));
    assert!(matches!(at_min.neg().sub(&one.neg()), Err(AssetError::Overflow)));
}

#[test]
fn multiplication_overflow_is_reported() {
    let at_max = Asset::from_amount(MAX_AMOUNT, Symbol::from("4,SYM"));
    assert!(matches!(at_max.mul(2), Err(AssetError::Overflow)));
    assert!(matches!(at_max.mul(-2), Err(AssetError::Underflow)));
}

#[test]
fn symbol_mismatch_is_reported_for_every_operation() {
    let a = Asset::from_amount(100, Symbol::from("4,SYM"));
    let code_differs = Asset::from_amount(50, Symbol::from("4,TST"));
    let precision_differs = Asset::from_amount(50, Symbol::from("5,SYM"));
    for b in [code_differs, precision_differs] {
        assert_eq!(a.eq(&b), Err(AssetError::SymbolMismatch));
        assert_eq!(a.lt(&b), Err(AssetError::SymbolMismatch));
        assert_eq!(a.le(&b), Err(AssetError::SymbolMismatch));
        assert_eq!(a.gt(&b), Err(AssetError::SymbolMismatch));
        assert_eq!(a.ge(&b), Err(AssetError::SymbolMismatch));
        assert!(matches!(a.add(&b), Err(AssetError::SymbolMismatch)));
        assert!(matches!(a.sub(&b), Err(AssetError::SymbolMismatch)));
        assert_eq!(a.ratio(&b), Err(AssetError::SymbolMismatch));
    }
}

#[test]
fn division_edge_cases_are_reported() {
    let asset = Asset::from_amount(100, Symbol::from("4,SYM"));
    assert!(matches!(asset.div(0), Err(AssetError::DivideByZero)));
    let zero = Asset::from_amount(0, Symbol::from("4,SYM"));
    assert_eq!(asset.ratio(&zero), Err(AssetError::DivideByZero));
    let at_min = Asset::from_amount(i64::MIN, Symbol::from("4,SYM"));
    assert!(matches!(at_min.div(-1), Err(AssetError::DivisionOverflow)));
    let minus_one = Asset::from_amount(-1, Symbol::from("4,SYM"));
    assert_eq!(at_min.ratio(&minus_one), Err(AssetError::DivisionOverflow));
    assert_ne!(AssetError::DivisionOverflow, AssetError::DivideByZero);
}
